//! The timer leaf: a suspending operation that becomes ready once the clock
//! reaches a fixed deadline.
//!
//! A leaf is resumed with the current time and the notification handle of the
//! task resuming it (an identifier; invoking the handle re-enqueues that
//! task). On the first resumption the leaf stores the handle and asks its
//! caller to start the one background waiter for its deadline; on later
//! resumptions it replaces the stored handle whenever the task has moved to a
//! different one, so that the waiter's notification still reaches the right
//! task. On every resumption it reports ready exactly when the clock has
//! reached the deadline, and once ready it stays ready.

use vstd::prelude::*;

verus! {

/// Progress of a timer leaf: freshly constructed, waiting with a stored
/// notification handle, or ready (terminal).
#[derive(Clone, Copy, PartialEq, Eq, Structural, Debug)]
pub enum TimerState {
    Uninit,
    Waiting { waker: u64 },
    Ready,
}

/// Outcome of one resumption attempt on a timer leaf.
#[derive(Clone, Copy, PartialEq, Eq, Structural, Debug)]
pub enum TimerPoll {
    Ready,
    Pending,
}

/// What the caller must arrange after a resumption attempt: start the one
/// background waiter for this leaf's deadline, or nothing. The waiter, once
/// started, invokes the stored notification handle when the deadline passes.
#[derive(Clone, Copy, PartialEq, Eq, Structural, Debug)]
pub enum TimerAction {
    StartWaiter { deadline: u64 },
    NoAction,
}

/// A timer leaf: ready once the clock reaches `deadline`.
#[derive(Clone, Copy, PartialEq, Eq, Structural, Debug)]
pub struct TimerLeaf {
    pub deadline: u64,
    pub state: TimerState,
}

/// One resumption attempt on a timer leaf, as a transition function: from the
/// leaf, the current time and the current notification handle to the new
/// leaf, the reported outcome and the required caller action.
///
/// The stored handle always ends up equal to the current one (a leaf may
/// migrate to a different task between resumptions); the waiter is started on
/// the first resumption only; readiness is exactly `now >= deadline`, and
/// ready is terminal.
pub open spec fn timer_poll_spec(leaf: TimerLeaf, now: u64, waker: u64) -> (TimerLeaf, TimerPoll, TimerAction) {
    let action = if leaf.state is Uninit {
        TimerAction::StartWaiter { deadline: leaf.deadline }
    } else {
        TimerAction::NoAction
    };
    if leaf.state is Ready || now >= leaf.deadline {
        (TimerLeaf { deadline: leaf.deadline, state: TimerState::Ready }, TimerPoll::Ready, action)
    } else {
        (
            TimerLeaf { deadline: leaf.deadline, state: TimerState::Waiting { waker } },
            TimerPoll::Pending,
            action,
        )
    }
}

impl TimerLeaf {
    /// A fresh leaf whose deadline is `now` plus the requested duration.
    pub fn new(now: u64, duration: u64) -> (leaf: TimerLeaf)
        requires
            now + duration <= u64::MAX,
        ensures
            leaf.deadline == now + duration,
            leaf.state == TimerState::Uninit,
    {
        TimerLeaf { deadline: now + duration, state: TimerState::Uninit }
    }

    /// One resumption attempt at time `now` under the notification handle
    /// `waker`. Stores or replaces the handle, then checks readiness.
    ///
    /// The stored handle is replaced only when it would wake a different
    /// task than the current one; the result is the same either way.
    pub fn poll(&mut self, now: u64, waker: u64) -> (r: (TimerPoll, TimerAction))
        ensures
            (*final(self), r.0, r.1) == timer_poll_spec(*old(self), now, waker),
    {
        let action = match self.state {
            TimerState::Uninit => TimerAction::StartWaiter { deadline: self.deadline },
            _ => TimerAction::NoAction,
        };
        match self.state {
            TimerState::Uninit => {
                self.state = TimerState::Waiting { waker };
            }
            TimerState::Waiting { waker: stored } => {
                if stored != waker {
                    self.state = TimerState::Waiting { waker };
                }
            }
            TimerState::Ready => {}
        }
        let ready = match self.state {
            TimerState::Ready => true,
            _ => now >= self.deadline,
        };
        if ready {
            self.state = TimerState::Ready;
            (TimerPoll::Ready, action)
        } else {
            (TimerPoll::Pending, action)
        }
    }
}

/// The leaf after a whole sequence of resumption attempts, one per entry of
/// `times`, all under the handle `waker`.
pub open spec fn timer_poll_many(leaf: TimerLeaf, times: Seq<u64>, waker: u64) -> TimerLeaf
    decreases times.len(),
{
    if times.len() == 0 {
        leaf
    } else {
        timer_poll_many(timer_poll_spec(leaf, times[0], waker).0, times.drop_first(), waker)
    }
}

/// Law: a timer leaf reports "not ready" on a resumption attempted strictly
/// before its deadline, reports completion on any resumption attempted at or
/// after it, and once ready it stays ready under repeated resumption.
pub proof fn lemma_timer_readiness(leaf: TimerLeaf, now: u64, waker: u64)
    ensures
        !(leaf.state is Ready) && now < leaf.deadline ==> {
            &&& timer_poll_spec(leaf, now, waker).1 == TimerPoll::Pending
            &&& !(timer_poll_spec(leaf, now, waker).0.state is Ready)
        },
        now >= leaf.deadline ==> timer_poll_spec(leaf, now, waker).1 == TimerPoll::Ready,
        leaf.state is Ready ==> {
            &&& timer_poll_spec(leaf, now, waker).1 == TimerPoll::Ready
            &&& timer_poll_spec(leaf, now, waker).0 == leaf
        },
{
}

/// Law: once ready, a timer leaf stays ready, unchanged, under any further
/// sequence of resumption attempts.
pub proof fn lemma_timer_ready_stays(leaf: TimerLeaf, times: Seq<u64>, waker: u64)
    requires
        leaf.state is Ready,
    ensures
        timer_poll_many(leaf, times, waker) == leaf,
    decreases times.len(),
{
    if times.len() > 0 {
        assert(timer_poll_spec(leaf, times[0], waker).0 == leaf);
        lemma_timer_ready_stays(leaf, times.drop_first(), waker);
    }
}

/// Law: under any sequence of resumption attempts all made strictly before
/// the deadline, a leaf that is not yet ready never becomes ready, and its
/// deadline never changes.
pub proof fn lemma_timer_never_early(leaf: TimerLeaf, times: Seq<u64>, waker: u64)
    requires
        !(leaf.state is Ready),
        forall|i: int| 0 <= i < times.len() ==> times[i] < leaf.deadline,
    ensures
        !(timer_poll_many(leaf, times, waker).state is Ready),
        timer_poll_many(leaf, times, waker).deadline == leaf.deadline,
    decreases times.len(),
{
    if times.len() > 0 {
        let next = timer_poll_spec(leaf, times[0], waker).0;
        assert(forall|i: int| 0 <= i < times.drop_first().len() ==> times.drop_first()[i]
            < next.deadline);
        lemma_timer_never_early(next, times.drop_first(), waker);
    }
}

} // verus!
