use learning_rust::tpool::{PoolCore, Step, SubmitError, WorkerState};

/// Lets worker `id` take one step, runs the work if any (adding it to
/// `counter`), and reports it finished. Returns true when the worker stopped.
fn drive(core: &mut PoolCore<u32>, id: usize, counter: &mut u32) -> bool {
    match core.take(id) {
        Step::Run(_, work) => {
            *counter += work;
            core.finish(id);
            false
        }
        Step::Wait => false,
        Step::Stop | Step::Closed => true,
    }
}

#[test]
fn pool_of_two_runs_five_increments() {
    let mut core: PoolCore<u32> = PoolCore::new(2);
    for _ in 0..5 {
        assert!(core.submit(1).is_ok());
    }
    assert_eq!(core.begin_shutdown(), 2);
    let mut counter = 0;
    let mut stopped = [false, false];
    let mut id = 0;
    while !(stopped[0] && stopped[1]) {
        if !stopped[id] {
            stopped[id] = drive(&mut core, id, &mut counter);
        }
        id = 1 - id;
    }
    assert!(core.all_stopped());
    assert_eq!(counter, 5);
    assert_eq!(core.dispatched_count(), 5);
    assert_eq!(core.pending_count(), 0);
}

#[test]
fn idle_shutdown_stops_each_worker_once() {
    for n in 1..6usize {
        let mut core: PoolCore<u32> = PoolCore::new(n);
        assert_eq!(core.size(), n);
        assert_eq!(core.begin_shutdown(), n);
        for id in 0..n {
            assert!(matches!(core.take(id), Step::Stop));
            assert_eq!(core.worker_state(id), WorkerState::Stopped);
        }
        assert!(core.all_stopped());
    }
}

#[test]
fn tickets_follow_submission_order() {
    let mut core: PoolCore<&str> = PoolCore::new(3);
    assert_eq!(core.submit("a"), Ok(0));
    assert_eq!(core.submit("b"), Ok(1));
    assert_eq!(core.submit("c"), Ok(2));
    assert_eq!(core.submitted_count(), 3);
    let mut got = Vec::new();
    for id in [2usize, 0, 1] {
        match core.take(id) {
            Step::Run(t, w) => got.push((t, w)),
            _ => panic!("expected work"),
        }
        assert!(matches!(core.worker_state(id), WorkerState::Running(_)));
    }
    assert_eq!(got, vec![(0, "a"), (1, "b"), (2, "c")]);
    assert_eq!(core.finish(0), 1);
    assert_eq!(core.finish(2), 0);
    assert_eq!(core.worker_state(0), WorkerState::Idle);
}

#[test]
fn single_worker_runs_one_item_at_a_time() {
    let mut core: PoolCore<&str> = PoolCore::new(1);
    assert_eq!(core.submit("sleep"), Ok(0));
    assert_eq!(core.submit("stamp"), Ok(1));
    assert!(matches!(core.take(0), Step::Run(0, "sleep")));
    // The only worker is busy: the second item stays queued until it is done.
    assert_eq!(core.worker_state(0), WorkerState::Running(0));
    assert_eq!(core.pending_count(), 1);
    assert_eq!(core.finish(0), 0);
    assert!(matches!(core.take(0), Step::Run(1, "stamp")));
    assert_eq!(core.pending_count(), 0);
}

#[test]
fn empty_queue_means_wait() {
    let mut core: PoolCore<u32> = PoolCore::new(2);
    assert!(matches!(core.take(1), Step::Wait));
    assert_eq!(core.worker_state(1), WorkerState::Idle);
    assert_eq!(core.submit(9), Ok(0));
    assert!(matches!(core.take(1), Step::Run(0, 9)));
}

#[test]
fn shutdown_comes_after_queued_work() {
    let mut core: PoolCore<u32> = PoolCore::new(1);
    core.submit(10).unwrap();
    core.submit(20).unwrap();
    assert_eq!(core.begin_shutdown(), 1);
    assert!(core.is_shutting_down());
    assert!(matches!(core.take(0), Step::Run(0, 10)));
    core.finish(0);
    assert!(matches!(core.take(0), Step::Run(1, 20)));
    core.finish(0);
    assert!(matches!(core.take(0), Step::Stop));
    assert!(core.all_stopped());
}

#[test]
fn submit_after_shutdown_is_refused() {
    let mut core: PoolCore<u32> = PoolCore::new(2);
    assert_eq!(core.begin_shutdown(), 2);
    assert_eq!(core.submit(1), Err(SubmitError::ShutDown));
    assert_eq!(core.submitted_count(), 0);
}

#[test]
fn second_shutdown_queues_nothing() {
    let mut core: PoolCore<u32> = PoolCore::new(3);
    assert_eq!(core.begin_shutdown(), 3);
    assert_eq!(core.begin_shutdown(), 0);
    for id in 0..3 {
        assert!(matches!(core.take(id), Step::Stop));
    }
    assert!(core.all_stopped());
}

#[test]
fn abandoned_queue_stops_workers_as_closed() {
    let mut core: PoolCore<u32> = PoolCore::new(2);
    core.submit(4).unwrap();
    core.abandon();
    assert_eq!(core.submit(5), Err(SubmitError::ShutDown));
    assert!(matches!(core.take(0), Step::Run(0, 4)));
    assert!(matches!(core.take(1), Step::Closed));
    core.finish(0);
    assert!(matches!(core.take(0), Step::Closed));
    assert!(core.all_stopped());
    assert_eq!(core.begin_shutdown(), 0);
}

#[test]
fn not_all_stopped_while_one_still_runs() {
    let mut core: PoolCore<u32> = PoolCore::new(2);
    core.submit(1).unwrap();
    core.begin_shutdown();
    assert!(matches!(core.take(0), Step::Run(0, 1)));
    assert!(matches!(core.take(1), Step::Stop));
    assert!(!core.all_stopped());
    core.finish(0);
    assert!(matches!(core.take(0), Step::Stop));
    assert!(core.all_stopped());
}
