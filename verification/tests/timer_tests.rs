use mini_tokio::timer::{TimerAction, TimerLeaf, TimerPoll, TimerState};

#[test]
fn zero_duration_ready_on_first_resumption() {
    let mut leaf = TimerLeaf::new(5, 0);
    assert_eq!(leaf.deadline, 5);
    let (poll, action) = leaf.poll(5, 7);
    assert_eq!(poll, TimerPoll::Ready);
    assert_eq!(action, TimerAction::StartWaiter { deadline: 5 });
    assert_eq!(leaf.state, TimerState::Ready);
}

#[test]
fn pending_strictly_before_deadline_ready_at_deadline() {
    let mut leaf = TimerLeaf::new(0, 100);
    assert_eq!(leaf.deadline, 100);
    let (poll, action) = leaf.poll(0, 1);
    assert_eq!(poll, TimerPoll::Pending);
    assert_eq!(action, TimerAction::StartWaiter { deadline: 100 });
    let (poll, action) = leaf.poll(99, 1);
    assert_eq!(poll, TimerPoll::Pending);
    assert_eq!(action, TimerAction::NoAction);
    let (poll, _) = leaf.poll(100, 1);
    assert_eq!(poll, TimerPoll::Ready);
    assert_eq!(leaf.state, TimerState::Ready);
}

#[test]
fn ready_is_terminal_under_repeated_resumption() {
    let mut leaf = TimerLeaf::new(10, 10);
    let (poll, _) = leaf.poll(25, 3);
    assert_eq!(poll, TimerPoll::Ready);
    // Even a resumption that reports an earlier clock cannot leave readiness.
    let (poll, action) = leaf.poll(0, 3);
    assert_eq!(poll, TimerPoll::Ready);
    assert_eq!(action, TimerAction::NoAction);
    assert_eq!(leaf.state, TimerState::Ready);
}

#[test]
fn waiter_started_only_on_first_resumption() {
    let mut leaf = TimerLeaf::new(0, 50);
    let (_, first) = leaf.poll(0, 1);
    let (_, second) = leaf.poll(10, 1);
    let (_, third) = leaf.poll(20, 1);
    assert_eq!(first, TimerAction::StartWaiter { deadline: 50 });
    assert_eq!(second, TimerAction::NoAction);
    assert_eq!(third, TimerAction::NoAction);
}

#[test]
fn stored_handle_replaced_when_leaf_migrates() {
    let mut leaf = TimerLeaf::new(0, 50);
    let _ = leaf.poll(0, 1);
    assert_eq!(leaf.state, TimerState::Waiting { waker: 1 });
    // The leaf is now resumed under a different notification handle: the
    // stored one would no longer wake the right task and must be replaced.
    let _ = leaf.poll(10, 2);
    assert_eq!(leaf.state, TimerState::Waiting { waker: 2 });
    // Resuming under the same handle keeps it.
    let _ = leaf.poll(20, 2);
    assert_eq!(leaf.state, TimerState::Waiting { waker: 2 });
}
