use mini_tokio::executor::{spawn, Executor, SpawnError, Step};

#[test]
fn tasks_spawned_before_run_resume_in_fifo_order() {
    let mut ex = Executor::new(Vec::new());
    let id0 = ex.spawn(vec![Step::Emit { marker: 10 }]);
    let id1 = ex.spawn(vec![Step::Emit { marker: 20 }]);
    let id2 = ex.spawn(vec![Step::Emit { marker: 30 }]);
    assert_eq!((id0, id1, id2), (0, 1, 2));
    let idle = ex.run(100);
    assert!(idle);
    assert_eq!(ex.log, vec![0, 1, 2]);
    assert_eq!(ex.output, vec![10, 20, 30]);
}

#[test]
fn waking_a_completed_task_is_a_safe_noop() {
    let mut ex = Executor::new(Vec::new());
    let id = ex.spawn(vec![Step::Emit { marker: 5 }]);
    let idle = ex.run(100);
    assert!(idle);
    assert_eq!(ex.output, vec![5]);
    assert_eq!(ex.log, vec![0]);
    // Invoke the notification handle again after completion: the task is
    // re-enqueued, resumed once more, and immediately re-completes.
    ex.wake(id);
    let idle = ex.run(100);
    assert!(idle);
    assert_eq!(ex.output, vec![5]);
    assert_eq!(ex.log, vec![0, 0]);
}

#[test]
fn immediate_child_completes_before_timed_child() {
    let prog_a = vec![Step::AwaitTimer { duration: 1 }, Step::Emit { marker: 1 }];
    let prog_b = vec![Step::Emit { marker: 2 }];
    let mut ex = Executor::new(vec![prog_a, prog_b]);
    ex.spawn(vec![
        Step::SpawnChild { program: 0 },
        Step::SpawnChild { program: 1 },
    ]);
    let idle = ex.run(100);
    assert!(idle);
    assert_eq!(ex.output, vec![2, 1]);
}

#[test]
fn root_with_two_children_and_two_timers() {
    // Child A awaits a 100ms timer, then emits its marker; child B emits its
    // marker at once; the root awaits a 200ms timer before finishing.
    let prog_a = vec![
        Step::AwaitTimer { duration: 100 },
        Step::Emit { marker: 1 },
    ];
    let prog_b = vec![Step::Emit { marker: 2 }];
    let mut ex = Executor::new(vec![prog_a, prog_b]);
    ex.spawn(vec![
        Step::SpawnChild { program: 0 },
        Step::SpawnChild { program: 1 },
        Step::AwaitTimer { duration: 200 },
    ]);
    let idle = ex.run(100);
    assert!(idle);
    // B's marker comes first, A's second; A's no earlier than 100 and the
    // whole run ends no earlier than 200.
    assert_eq!(ex.output, vec![2, 1]);
    assert_eq!(ex.now, 200);
    // Resumption order: root, then A and B in spawn order, then A again on
    // its timer's expiry, then the root again on its own.
    assert_eq!(ex.log, vec![0, 1, 2, 1, 0]);
}

#[test]
fn zero_duration_timer_completes_on_first_resumption() {
    let mut ex = Executor::new(Vec::new());
    ex.spawn(vec![Step::AwaitTimer { duration: 0 }, Step::Emit { marker: 9 }]);
    let idle = ex.run(100);
    assert!(idle);
    // The marker is emitted during the very first resumption; the only later
    // log entry is the background waiter's redundant wake-up, a no-op.
    assert_eq!(ex.output, vec![9]);
    assert_eq!(ex.log, vec![0, 0]);
}

#[test]
fn earlier_deadline_fires_first_regardless_of_spawn_order() {
    let mut ex = Executor::new(Vec::new());
    ex.spawn(vec![
        Step::AwaitTimer { duration: 200 },
        Step::Emit { marker: 1 },
    ]);
    ex.spawn(vec![
        Step::AwaitTimer { duration: 100 },
        Step::Emit { marker: 2 },
    ]);
    let idle = ex.run(100);
    assert!(idle);
    assert_eq!(ex.output, vec![2, 1]);
    assert_eq!(ex.now, 200);
}

#[test]
fn spawn_without_ambient_executor_fails() {
    let mut current: Option<Executor> = None;
    let r = spawn(&mut current, vec![Step::Emit { marker: 1 }]);
    assert_eq!(r, Err(SpawnError::NoExecutor));
    assert!(current.is_none());
}

#[test]
fn spawn_with_ambient_executor_enqueues() {
    let mut current: Option<Executor> = Some(Executor::new(Vec::new()));
    let r = spawn(&mut current, vec![Step::Emit { marker: 7 }]);
    assert_eq!(r, Ok(0));
    let mut ex = current.unwrap();
    let idle = ex.run(100);
    assert!(idle);
    assert_eq!(ex.output, vec![7]);
    assert_eq!(ex.log, vec![0]);
}

#[test]
fn resume_runs_computation_to_completion() {
    let mut ex = Executor::new(Vec::new());
    let id = ex.spawn(vec![Step::Emit { marker: 8 }]);
    ex.resume(id);
    assert_eq!(ex.output, vec![8]);
    // The initial scheduling still sits in the queue: the run loop pops it
    // and the redundant resumption re-completes as a no-op.
    let idle = ex.run(10);
    assert!(idle);
    assert_eq!(ex.output, vec![8]);
    assert_eq!(ex.log, vec![0]);
}

#[test]
fn run_with_no_fuel_does_nothing() {
    let mut ex = Executor::new(Vec::new());
    ex.spawn(vec![Step::Emit { marker: 1 }]);
    let idle = ex.run(0);
    assert!(!idle);
    assert_eq!(ex.output, Vec::<u64>::new());
    let idle = ex.run(100);
    assert!(idle);
    assert_eq!(ex.output, vec![1]);
}

#[test]
fn nested_spawn_runs_after_already_queued_tasks() {
    // The root spawns a child; the child's identifier lands behind the task
    // that was enqueued before the run began.
    let child = vec![Step::Emit { marker: 3 }];
    let mut ex = Executor::new(vec![child]);
    ex.spawn(vec![Step::SpawnChild { program: 0 }, Step::Emit { marker: 1 }]);
    ex.spawn(vec![Step::Emit { marker: 2 }]);
    let idle = ex.run(100);
    assert!(idle);
    assert_eq!(ex.output, vec![1, 2, 3]);
    assert_eq!(ex.log, vec![0, 1, 2]);
}
