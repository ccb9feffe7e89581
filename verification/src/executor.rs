//! The executor: a single-threaded run loop over a FIFO ready queue of task
//! harnesses, together with the spawn entry point.
//!
//! A computation is a resumable unit of work, given as a sequence of steps: it
//! can spawn a child computation, await a timer leaf, or emit an observable
//! marker. The executor wraps each spawned computation in a task harness
//! (an entry of `tasks`), enqueues its identifier, and the run loop pops
//! identifiers and resumes the corresponding harnesses until it either
//! exhausts its step budget or reaches quiescence.
//!
//! Time is an explicit clock: a timer leaf's background waiter is recorded as
//! a pending `Waiter`, and when the ready queue is empty the loop advances the
//! clock to the earliest pending deadline and fires that waiter, which invokes
//! the task's notification handle, re-enqueueing it.
//!
//! Every operation is specified against `ModelState`, the mathematical view
//! of the executor, and the run loop implements the transition function
//! `run_step` exactly.

use vstd::prelude::*;

use crate::queue::ReadyQueue;
use crate::queue::queue_entries;
use crate::timer::TimerLeaf;
use crate::timer::TimerState;
use crate::timer::TimerPoll;
use crate::timer::timer_poll_spec;

verus! {

/// One step of a computation: spawn the child computation given by an index
/// into the executor's program table, suspend on a timer leaf for a duration,
/// or emit an observable marker.
#[derive(Clone, Copy, PartialEq, Eq, Structural, Debug)]
pub enum Step {
    SpawnChild { program: usize },
    AwaitTimer { duration: u64 },
    Emit { marker: u64 },
}

/// A pending background waiter: at `deadline` it invokes the notification
/// handle `waker`, re-enqueueing that task.
#[derive(Clone, Copy, PartialEq, Eq, Structural, Debug)]
pub struct Waiter {
    pub deadline: u64,
    pub waker: u64,
}

/// A task harness: a computation (its steps and current position), the timer
/// leaf it is suspended on if any, and whether it has completed.
pub struct Task {
    pub steps: Vec<Step>,
    pub pc: usize,
    pub timer: Option<TimerLeaf>,
    pub done: bool,
}

/// The mathematical view of a task harness.
#[verifier::ext_equal]
pub ghost struct TaskModel {
    pub steps: Seq<Step>,
    pub pc: int,
    pub timer: Option<TimerLeaf>,
    pub done: bool,
}

impl View for Task {
    type V = TaskModel;

    open spec fn view(&self) -> TaskModel {
        TaskModel { steps: self.steps@, pc: self.pc as int, timer: self.timer, done: self.done }
    }
}

/// The mathematical view of a whole executor: the program table, every task
/// harness ever spawned (indexed by identifier), the ready queue front first,
/// the pending waiters, the clock, the emitted markers, and the log of
/// resumptions in the order the run loop performed them.
#[verifier::ext_equal]
pub ghost struct ModelState {
    pub programs: Seq<Seq<Step>>,
    pub tasks: Seq<TaskModel>,
    pub queue: Seq<u64>,
    pub waiters: Seq<Waiter>,
    pub now: u64,
    pub output: Seq<u64>,
    pub log: Seq<u64>,
}

/// The executor. It owns the ready queue, the table of task harnesses, the
/// set of pending timer waiters and the clock.
pub struct Executor {
    pub programs: Vec<Vec<Step>>,
    pub tasks: Vec<Task>,
    pub queue: ReadyQueue,
    pub waiters: Vec<Waiter>,
    pub now: u64,
    pub output: Vec<u64>,
    pub log: Vec<u64>,
}

impl View for Executor {
    type V = ModelState;

    open spec fn view(&self) -> ModelState {
        ModelState {
            programs: self.programs@.map_values(|p: Vec<Step>| p@),
            tasks: self.tasks@.map_values(|t: Task| t@),
            queue: queue_entries(self.queue),
            waiters: self.waiters@,
            now: self.now,
            output: self.output@,
            log: self.log@,
        }
    }
}

/// A step may only name a program that exists.
pub open spec fn step_wf(s: Step, nprogs: int) -> bool {
    match s {
        Step::SpawnChild { program } => program < nprogs,
        _ => true,
    }
}

/// Every step of a program names only programs that exist.
pub open spec fn prog_wf(p: Seq<Step>, nprogs: int) -> bool {
    forall|i: int| 0 <= i < p.len() ==> step_wf(p[i], nprogs)
}

/// A task's program is well formed and its position lies within it.
pub open spec fn task_wf(t: TaskModel, nprogs: int) -> bool {
    &&& prog_wf(t.steps, nprogs)
    &&& 0 <= t.pc <= t.steps.len()
}

/// Well-formedness of the whole state: programs and tasks are well formed,
/// and the ready queue and the waiters refer only to existing tasks.
pub open spec fn wf(m: ModelState) -> bool {
    &&& forall|i: int|
        0 <= i < m.programs.len() ==> prog_wf(#[trigger] m.programs[i], m.programs.len() as int)
    &&& forall|i: int|
        0 <= i < m.tasks.len() ==> task_wf(#[trigger] m.tasks[i], m.programs.len() as int)
    &&& forall|i: int| 0 <= i < m.queue.len() ==> (#[trigger] m.queue[i] as int) < m.tasks.len()
    &&& forall|i: int|
        0 <= i < m.waiters.len() ==> ((#[trigger] m.waiters[i]).waker as int) < m.tasks.len()
}

/// The deadline of a timer requested now for `duration`, clamped to the
/// largest representable instant.
pub open spec fn deadline_of(now: u64, duration: u64) -> u64 {
    if now + duration <= u64::MAX {
        (now + duration) as u64
    } else {
        u64::MAX
    }
}

/// Spawning appends a fresh task harness for `steps` and enqueues its
/// identifier; the computation is not resumed yet.
pub open spec fn spawn_spec(m: ModelState, steps: Seq<Step>) -> ModelState {
    let id = m.tasks.len() as u64;
    ModelState {
        tasks: m.tasks.push(TaskModel { steps, pc: 0, timer: None, done: false }),
        queue: m.queue.push(id),
        ..m
    }
}

/// Invoking a task's notification handle enqueues its identifier, whatever
/// state the task is in.
pub open spec fn wake_spec(m: ModelState, id: u64) -> ModelState {
    ModelState { queue: m.queue.push(id), ..m }
}

/// One whole resumption of task `id`: its computation runs step by step until
/// it completes or suspends on a timer leaf that is not yet ready.
///
/// A completed task resumed again is left untouched (re-completing is a safe
/// no-op). On a timer leaf's first resumption a background waiter for its
/// deadline is recorded; the leaf then reports ready exactly when the clock
/// has reached the deadline.
pub open spec fn advance(m: ModelState, id: int) -> ModelState
    decreases m.tasks[id].steps.len() - m.tasks[id].pc,
{
    if !(0 <= id < m.tasks.len()) || m.tasks[id].done {
        m
    } else if m.tasks[id].pc >= m.tasks[id].steps.len() {
        ModelState { tasks: m.tasks.update(id, TaskModel { done: true, ..m.tasks[id] }), ..m }
    } else {
        let t = m.tasks[id];
        match t.steps[t.pc] {
            Step::Emit { marker } => {
                let m2 = ModelState {
                    tasks: m.tasks.update(id, TaskModel { pc: t.pc + 1, ..t }),
                    output: m.output.push(marker),
                    ..m
                };
                advance(m2, id)
            },
            Step::SpawnChild { program } => {
                let child = TaskModel {
                    steps: m.programs[program as int],
                    pc: 0,
                    timer: None,
                    done: false,
                };
                let m2 = ModelState {
                    tasks: m.tasks.update(id, TaskModel { pc: t.pc + 1, ..t }).push(child),
                    queue: m.queue.push(m.tasks.len() as u64),
                    ..m
                };
                advance(m2, id)
            },
            Step::AwaitTimer { duration } => {
                let leaf = match t.timer {
                    None => TimerLeaf {
                        deadline: deadline_of(m.now, duration),
                        state: TimerState::Uninit,
                    },
                    Some(l) => l,
                };
                let waiters = if t.timer is None {
                    m.waiters.push(Waiter { deadline: leaf.deadline, waker: id as u64 })
                } else {
                    m.waiters
                };
                let polled = timer_poll_spec(leaf, m.now, id as u64);
                if polled.1 is Ready {
                    let m2 = ModelState {
                        tasks: m.tasks.update(id, TaskModel { pc: t.pc + 1, timer: None, ..t }),
                        waiters,
                        ..m
                    };
                    advance(m2, id)
                } else {
                    ModelState {
                        tasks: m.tasks.update(id, TaskModel { timer: Some(polled.0), ..t }),
                        waiters,
                        ..m
                    }
                }
            },
        }
    }
}

/// Nothing is ready and no waiter is pending: the run loop has nothing left
/// to do, and no producer is left that could make it runnable again.
pub open spec fn quiescent(m: ModelState) -> bool {
    m.queue.len() == 0 && m.waiters.len() == 0
}

/// The index of the pending waiter with the earliest deadline (the first such
/// index, when several share it).
pub open spec fn earliest_waiter(ws: Seq<Waiter>) -> int
    decreases ws.len(),
{
    if ws.len() <= 1 {
        0
    } else {
        let r = earliest_waiter(ws.drop_first());
        if ws[0].deadline <= ws[r + 1].deadline {
            0
        } else {
            r + 1
        }
    }
}

/// Firing the earliest pending waiter: the clock advances to its deadline (if
/// that is still in the future) and the waiter invokes its notification
/// handle, enqueueing its task.
pub open spec fn fire_spec(m: ModelState) -> ModelState {
    let i = earliest_waiter(m.waiters);
    let w = m.waiters[i];
    let now2 = if w.deadline > m.now {
        w.deadline
    } else {
        m.now
    };
    ModelState { now: now2, queue: m.queue.push(w.waker), waiters: m.waiters.remove(i), ..m }
}

/// One iteration of the run loop: pop the task at the front of the ready
/// queue, log it and resume it; with the queue empty, fire the earliest
/// pending waiter; with nothing pending at all, do nothing.
pub open spec fn run_step(m: ModelState) -> ModelState {
    if m.queue.len() > 0 {
        let id = m.queue[0];
        let m2 = ModelState { queue: m.queue.drop_first(), log: m.log.push(id), ..m };
        advance(m2, id as int)
    } else if m.waiters.len() > 0 {
        fire_spec(m)
    } else {
        m
    }
}

/// The run loop after up to `fuel` iterations; it stops early at quiescence.
pub open spec fn run_n(m: ModelState, fuel: nat) -> ModelState
    decreases fuel,
{
    if fuel == 0 || quiescent(m) {
        m
    } else {
        run_n(run_step(m), (fuel - 1) as nat)
    }
}

/// `earliest_waiter` indeed picks the first index with the least deadline.
pub proof fn lemma_earliest_waiter(ws: Seq<Waiter>)
    requires
        ws.len() > 0,
    ensures
        0 <= earliest_waiter(ws) < ws.len(),
        forall|j: int|
            0 <= j < ws.len() ==> ws[earliest_waiter(ws)].deadline <= (#[trigger] ws[j]).deadline,
        forall|j: int|
            0 <= j < earliest_waiter(ws) ==> (#[trigger] ws[j]).deadline
                > ws[earliest_waiter(ws)].deadline,
    decreases ws.len(),
{
    if ws.len() > 1 {
        let rest = ws.drop_first();
        lemma_earliest_waiter(rest);
        let r = earliest_waiter(rest);
        let e = earliest_waiter(ws);
        assert(forall|j: int| 0 <= j < rest.len() ==> rest[j] == ws[j + 1]);
        if ws[0].deadline <= ws[r + 1].deadline {
            assert(e == 0);
            assert forall|j: int| 0 <= j < ws.len() implies ws[e].deadline <= (
            #[trigger] ws[j]).deadline by {
                if j >= 1 {
                    assert(rest[r].deadline <= rest[j - 1].deadline);
                }
            }
        } else {
            assert(e == r + 1);
            assert forall|j: int| 0 <= j < ws.len() implies ws[e].deadline <= (
            #[trigger] ws[j]).deadline by {
                if j >= 1 {
                    assert(rest[r].deadline <= rest[j - 1].deadline);
                }
            }
            assert forall|j: int| 0 <= j < e implies (#[trigger] ws[j]).deadline
                > ws[e].deadline by {
                if j >= 1 {
                    assert(rest[j - 1].deadline > rest[r].deadline);
                }
            }
        }
    }
}

/// An owned copy of a program, step for step.
fn copy_steps(v: &Vec<Step>) -> (r: Vec<Step>)
    ensures
        r@ == v@,
{
    let mut r: Vec<Step> = Vec::new();
    let mut i: usize = 0;
    while i < v.len()
        invariant
            i <= v.len(),
            r@ == v@.take(i as int),
        decreases v.len() - i,
    {
        r.push(v[i]);
        proof {
            assert(r@ =~= v@.take(i + 1));
        }
        i = i + 1;
    }
    proof {
        assert(v@.take(v@.len() as int) =~= v@);
    }
    r
}

impl Executor {
    /// A fresh executor over the given program table: an empty ready queue,
    /// no tasks, no pending waiters, the clock at zero.
    pub fn new(programs: Vec<Vec<Step>>) -> (ex: Executor)
        requires
            forall|i: int|
                0 <= i < programs@.len() ==> prog_wf(
                    (#[trigger] programs@[i])@,
                    programs@.len() as int,
                ),
        ensures
            ex@ == (ModelState {
                programs: programs@.map_values(|p: Vec<Step>| p@),
                tasks: Seq::<TaskModel>::empty(),
                queue: Seq::<u64>::empty(),
                waiters: Seq::<Waiter>::empty(),
                now: 0u64,
                output: Seq::<u64>::empty(),
                log: Seq::<u64>::empty(),
            }),
            wf(ex@),
    {
        let ex = Executor {
            programs,
            tasks: Vec::new(),
            queue: ReadyQueue::new(),
            waiters: Vec::new(),
            now: 0,
            output: Vec::new(),
            log: Vec::new(),
        };
        proof {
            assert(ex@.tasks =~= Seq::<TaskModel>::empty());
        }
        ex
    }

    /// Wrap `steps` in a fresh task harness and enqueue it; this is the
    /// harness's first scheduling, and it is not resumed yet.
    pub fn spawn(&mut self, steps: Vec<Step>) -> (id: u64)
        requires
            wf(old(self)@),
            prog_wf(steps@, old(self)@.programs.len() as int),
        ensures
            final(self)@ == spawn_spec(old(self)@, steps@),
            id == old(self)@.tasks.len() as u64,
            wf(final(self)@),
    {
        let id = self.tasks.len() as u64;
        self.tasks.push(Task { steps, pc: 0, timer: None, done: false });
        self.queue.push(id);
        proof {
            assert(self@.tasks =~= spawn_spec(old(self)@, steps@).tasks);
            assert(self@ =~= spawn_spec(old(self)@, steps@));
            assert forall|i: int| 0 <= i < self@.queue.len() implies (
            #[trigger] self@.queue[i] as int) < self@.tasks.len() by {
                if i < old(self)@.queue.len() {
                    assert((old(self)@.queue[i] as int) < old(self)@.tasks.len());
                }
            }
        }
        id
    }

    /// Resume task `id` once: run its computation step by step until it
    /// completes or suspends on a timer leaf that is not yet ready. Resuming
    /// an already completed task leaves the executor unchanged.
    pub fn resume(&mut self, id: u64)
        requires
            wf(old(self)@),
            (id as int) < old(self)@.tasks.len(),
        ensures
            final(self)@ == advance(old(self)@, id as int),
            wf(final(self)@),
    {
        loop
            invariant
                wf(self@),
                (id as int) < self@.tasks.len(),
                advance(self@, id as int) == advance(old(self)@, id as int),
            decreases self@.tasks[id as int].steps.len() - self@.tasks[id as int].pc,
        {
            let ghost prev = self@;
            let n = self.tasks.len();
            proof {
                assert(n as int == self@.tasks.len());
                assert((id as int) < n as int);
            }
            let i = id as usize;
            if self.tasks[i].done {
                return ;
            }
            if self.tasks[i].pc >= self.tasks[i].steps.len() {
                self.tasks[i].done = true;
                proof {
                    let target = ModelState {
                        tasks: prev.tasks.update(
                            id as int,
                            TaskModel { done: true, ..prev.tasks[id as int] },
                        ),
                        ..prev
                    };
                    assert(self@.tasks =~~= target.tasks);
                    assert(self@ =~~= target);
                }
                return ;
            }
            let pc = self.tasks[i].pc;
            let step = self.tasks[i].steps[pc];
            let ghost t = prev.tasks[id as int];
            match step {
                Step::Emit { marker } => {
                    self.tasks[i].pc = pc + 1;
                    self.output.push(marker);
                    proof {
                        let m2 = ModelState {
                            tasks: prev.tasks.update(id as int, TaskModel { pc: t.pc + 1, ..t }),
                            output: prev.output.push(marker),
                            ..prev
                        };
                        assert(self@.tasks =~~= m2.tasks);
                        assert(self@ =~~= m2);
                        assert(advance(prev, id as int) == advance(self@, id as int));
                    }
                },
                Step::SpawnChild { program } => {
                    let child_steps = copy_steps(&self.programs[program]);
                    let nid = self.tasks.len() as u64;
                    self.tasks[i].pc = pc + 1;
                    self.tasks.push(Task { steps: child_steps, pc: 0, timer: None, done: false });
                    self.queue.push(nid);
                    proof {
                        let child = TaskModel {
                            steps: prev.programs[program as int],
                            pc: 0,
                            timer: None,
                            done: false,
                        };
                        let m2 = ModelState {
                            tasks: prev.tasks.update(id as int, TaskModel { pc: t.pc + 1, ..t })
                                .push(child),
                            queue: prev.queue.push(prev.tasks.len() as u64),
                            ..prev
                        };
                        assert(self@.tasks =~~= m2.tasks);
                        assert(self@ =~~= m2);
                        assert(advance(prev, id as int) == advance(self@, id as int));
                        assert forall|j: int| 0 <= j < self@.queue.len() implies (
                        #[trigger] self@.queue[j] as int) < self@.tasks.len() by {
                            if j < prev.queue.len() {
                                assert((prev.queue[j] as int) < prev.tasks.len());
                            }
                        }
                    }
                },
                Step::AwaitTimer { duration } => {
                    let deadline = if duration <= u64::MAX - self.now {
                        self.now + duration
                    } else {
                        u64::MAX
                    };
                    let tm = self.tasks[i].timer;
                    let first = tm.is_none();
                    let mut leaf = match tm {
                        None => TimerLeaf { deadline, state: TimerState::Uninit },
                        Some(l) => l,
                    };
                    if first {
                        self.waiters.push(Waiter { deadline: leaf.deadline, waker: id });
                    }
                    let ghost waiters2 = if t.timer is None {
                        prev.waiters.push(Waiter { deadline: leaf.deadline, waker: id })
                    } else {
                        prev.waiters
                    };
                    let r = leaf.poll(self.now, id);
                    match r.0 {
                        TimerPoll::Ready => {
                            self.tasks[i].pc = pc + 1;
                            self.tasks[i].timer = None;
                            proof {
                                let m2 = ModelState {
                                    tasks: prev.tasks.update(
                                        id as int,
                                        TaskModel { pc: t.pc + 1, timer: None, ..t },
                                    ),
                                    waiters: waiters2,
                                    ..prev
                                };
                                assert(self@.tasks =~~= m2.tasks);
                                assert(self@ =~~= m2);
                                assert(advance(prev, id as int) == advance(self@, id as int));
                            }
                        },
                        TimerPoll::Pending => {
                            self.tasks[i].timer = Some(leaf);
                            proof {
                                let m2 = ModelState {
                                    tasks: prev.tasks.update(
                                        id as int,
                                        TaskModel {
                                            timer: Some(
                                                timer_poll_spec(
                                                    match t.timer {
                                                        None => TimerLeaf {
                                                            deadline: deadline_of(prev.now, duration),
                                                            state: TimerState::Uninit,
                                                        },
                                                        Some(l) => l,
                                                    },
                                                    prev.now,
                                                    id,
                                                ).0,
                                            ),
                                            ..t
                                        },
                                    ),
                                    waiters: waiters2,
                                    ..prev
                                };
                                assert(self@.tasks =~~= m2.tasks);
                                assert(self@ =~~= m2);
                                assert(advance(prev, id as int) == self@);
                            }
                            return ;
                        },
                    }
                },
            }
        }
    }

    /// With the ready queue empty, fire the pending waiter with the earliest
    /// deadline: advance the clock to it (when it is still in the future) and
    /// invoke its notification handle, enqueueing its task.
    fn fire_earliest(&mut self)
        requires
            wf(old(self)@),
            old(self)@.waiters.len() > 0,
        ensures
            final(self)@ == fire_spec(old(self)@),
            wf(final(self)@),
    {
        let ghost prev = self@;
        let mut best: usize = 0;
        let mut k: usize = 1;
        while k < self.waiters.len()
            invariant
                self@ == prev,
                0 <= best < k <= self.waiters.len(),
                self.waiters.len() > 0,
                forall|j: int|
                    0 <= j < k ==> self.waiters@[best as int].deadline <= (
                    #[trigger] self.waiters@[j]).deadline,
                forall|j: int|
                    0 <= j < best ==> (#[trigger] self.waiters@[j]).deadline
                        > self.waiters@[best as int].deadline,
            decreases self.waiters.len() - k,
        {
            if self.waiters[k].deadline < self.waiters[best].deadline {
                best = k;
            }
            k = k + 1;
        }
        proof {
            lemma_earliest_waiter(prev.waiters);
            let e = earliest_waiter(prev.waiters);
            if (best as int) < e {
                assert(prev.waiters[best as int].deadline > prev.waiters[e].deadline);
                assert(prev.waiters[e].deadline >= prev.waiters[best as int].deadline);
                assert(false);
            }
            if e < best as int {
                assert(prev.waiters[e].deadline > prev.waiters[best as int].deadline);
                assert(prev.waiters[best as int].deadline >= prev.waiters[e].deadline);
                assert(false);
            }
            assert(best as int == e);
        }
        let w = self.waiters[best];
        if w.deadline > self.now {
            self.now = w.deadline;
        }
        self.queue.push(w.waker);
        self.waiters.remove(best);
        proof {
            assert(self@ =~= fire_spec(prev));
            assert forall|j: int| 0 <= j < self@.queue.len() implies (
            #[trigger] self@.queue[j] as int) < self@.tasks.len() by {
                if j < prev.queue.len() {
                    assert((prev.queue[j] as int) < prev.tasks.len());
                } else {
                    assert(((prev.waiters[best as int]).waker as int) < prev.tasks.len());
                }
            }
            assert forall|j: int| 0 <= j < self@.waiters.len() implies ((
            #[trigger] self@.waiters[j]).waker as int) < self@.tasks.len() by {
                if j < best as int {
                    assert(self@.waiters[j] == prev.waiters[j]);
                } else {
                    assert(self@.waiters[j] == prev.waiters[j + 1]);
                }
            }
        }
    }

    /// The run loop, bounded by a step budget: pop the task harness at the
    /// front of the ready queue and resume it; with the queue empty, advance
    /// the clock to the earliest pending waiter and fire it. The loop in the
    /// full system has no defined termination (a computation may spawn
    /// without bound), so the caller supplies `fuel`, the number of
    /// iterations it is willing to pay for. Returns whether the executor
    /// reached quiescence: nothing queued and no waiter pending, the
    /// counterpart of every queue producer being gone.
    pub fn run(&mut self, fuel: u64) -> (idle: bool)
        requires
            wf(old(self)@),
        ensures
            final(self)@ == run_n(old(self)@, fuel as nat),
            wf(final(self)@),
            idle ==> quiescent(final(self)@),
    {
        let mut remaining = fuel;
        loop
            invariant
                wf(self@),
                remaining <= fuel,
                run_n(old(self)@, fuel as nat) == run_n(self@, remaining as nat),
            decreases remaining,
        {
            if remaining == 0 {
                return false;
            }
            let ghost prev = self@;
            match self.queue.pop() {
                Some(id) => {
                    self.log.push(id);
                    let ghost m2 = ModelState {
                        queue: prev.queue.drop_first(),
                        log: prev.log.push(id),
                        ..prev
                    };
                    proof {
                        assert(id == prev.queue[0]);
                        assert((id as int) < prev.tasks.len());
                        assert(self@ =~= m2);
                        assert forall|j: int| 0 <= j < m2.queue.len() implies (
                        #[trigger] m2.queue[j] as int) < m2.tasks.len() by {
                            assert(m2.queue[j] == prev.queue[j + 1]);
                        }
                    }
                    self.resume(id);
                    proof {
                        assert(self@ == advance(m2, id as int));
                        assert(self@ == run_step(prev));
                        assert(run_n(prev, remaining as nat) == run_n(
                            self@,
                            (remaining - 1) as nat,
                        ));
                    }
                },
                None => {
                    if self.waiters.len() > 0 {
                        self.fire_earliest();
                        proof {
                            assert(self@ == run_step(prev));
                            assert(run_n(prev, remaining as nat) == run_n(
                                self@,
                                (remaining - 1) as nat,
                            ));
                        }
                    } else {
                        proof {
                            assert(quiescent(self@));
                        }
                        return true;
                    }
                },
            }
            remaining = remaining - 1;
        }
    }

    /// Invoke the notification handle of task `id`: enqueue it again. Safe
    /// whatever state the task is in, including already completed.
    pub fn wake(&mut self, id: u64)
        requires
            wf(old(self)@),
            (id as int) < old(self)@.tasks.len(),
        ensures
            final(self)@ == wake_spec(old(self)@, id),
            wf(final(self)@),
    {
        self.queue.push(id);
        proof {
            assert(self@ =~= wake_spec(old(self)@, id));
        }
    }
}

/// The error of the spawn entry point: there is no ambient executor
/// registration, so the computation has nowhere to go.
#[derive(Clone, Copy, PartialEq, Eq, Structural, Debug)]
pub enum SpawnError {
    NoExecutor,
}

/// The spawn entry point: look up the ambient executor registration and
/// enqueue a fresh task harness for `steps` on it. Invoked with no
/// registration (outside a running executor) it fails with `NoExecutor`
/// rather than silently dropping the computation.
pub fn spawn(current: &mut Option<Executor>, steps: Vec<Step>) -> (r: Result<u64, SpawnError>)
    requires
        (*old(current)) is Some ==> wf(((*old(current))->0)@) && prog_wf(
            steps@,
            ((*old(current))->0)@.programs.len() as int,
        ),
    ensures
        (*old(current)) is None ==> (*final(current)) is None && r == Err::<u64, SpawnError>(
            SpawnError::NoExecutor,
        ),
        (*old(current)) is Some ==> {
            &&& (*final(current)) is Some
            &&& ((*final(current))->0)@ == spawn_spec(((*old(current))->0)@, steps@)
            &&& wf(((*final(current))->0)@)
            &&& r == Ok::<u64, SpawnError>(((*old(current))->0)@.tasks.len() as u64)
        },
{
    match current {
        Some(ex) => Ok(ex.spawn(steps)),
        None => Err(SpawnError::NoExecutor),
    }
}

/// A resumption never pops the ready queue and never touches the resumption
/// log: it only ever appends entries at the back of the queue.
pub proof fn lemma_advance_appends(m: ModelState, id: int)
    ensures
        advance(m, id).log == m.log,
        m.queue.is_prefix_of(advance(m, id).queue),
    decreases m.tasks[id].steps.len() - m.tasks[id].pc,
{
    assert(m.queue.is_prefix_of(m.queue)) by {
        assert(m.queue.subrange(0, m.queue.len() as int) =~= m.queue);
    }
    if !(0 <= id < m.tasks.len()) || m.tasks[id].done {
    } else if m.tasks[id].pc >= m.tasks[id].steps.len() {
    } else {
        let t = m.tasks[id];
        match t.steps[t.pc] {
            Step::Emit { marker } => {
                let m2 = ModelState {
                    tasks: m.tasks.update(id, TaskModel { pc: t.pc + 1, ..t }),
                    output: m.output.push(marker),
                    ..m
                };
                lemma_advance_appends(m2, id);
            },
            Step::SpawnChild { program } => {
                let child = TaskModel {
                    steps: m.programs[program as int],
                    pc: 0,
                    timer: None,
                    done: false,
                };
                let m2 = ModelState {
                    tasks: m.tasks.update(id, TaskModel { pc: t.pc + 1, ..t }).push(child),
                    queue: m.queue.push(m.tasks.len() as u64),
                    ..m
                };
                lemma_advance_appends(m2, id);
                assert(m.queue.is_prefix_of(m2.queue)) by {
                    assert(m2.queue.subrange(0, m.queue.len() as int) =~= m.queue);
                }
            },
            Step::AwaitTimer { duration } => {
                let leaf = match t.timer {
                    None => TimerLeaf {
                        deadline: deadline_of(m.now, duration),
                        state: TimerState::Uninit,
                    },
                    Some(l) => l,
                };
                let waiters = if t.timer is None {
                    m.waiters.push(Waiter { deadline: leaf.deadline, waker: id as u64 })
                } else {
                    m.waiters
                };
                let polled = timer_poll_spec(leaf, m.now, id as u64);
                if polled.1 is Ready {
                    let m2 = ModelState {
                        tasks: m.tasks.update(id, TaskModel { pc: t.pc + 1, timer: None, ..t }),
                        waiters,
                        ..m
                    };
                    lemma_advance_appends(m2, id);
                }
            },
        }
    }
}

/// The relation the run loop keeps between its starting state `m0` and any
/// later state `m`: the resumption log grows only at the back; while fewer
/// tasks have been resumed than the starting ready queue held, those resumed
/// are exactly the front of the starting queue, in order, and its remainder
/// still stands at the front of the current queue; and from then on the whole
/// starting queue is a prefix of the resumptions performed.
pub open spec fn fifo_inv(m0: ModelState, m: ModelState) -> bool {
    let k = m0.queue.len() as int;
    let g = m.log.len() - m0.log.len();
    &&& m0.log.is_prefix_of(m.log)
    &&& (g < k ==> m.log == m0.log + m0.queue.subrange(0, g) && m0.queue.skip(g).is_prefix_of(
        m.queue,
    ))
    &&& (g >= k ==> m0.queue.is_prefix_of(m.log.skip(m0.log.len() as int)))
}

/// One iteration of the run loop preserves the FIFO relation.
pub proof fn lemma_fifo_step(m0: ModelState, m: ModelState)
    requires
        fifo_inv(m0, m),
    ensures
        fifo_inv(m0, run_step(m)),
{
    let k = m0.queue.len() as int;
    let g = m.log.len() - m0.log.len();
    if m.queue.len() > 0 {
        let id = m.queue[0];
        let m2 = ModelState { queue: m.queue.drop_first(), log: m.log.push(id), ..m };
        let m3 = advance(m2, id as int);
        lemma_advance_appends(m2, id as int);
        assert(m0.log.is_prefix_of(m3.log)) by {
            assert(m3.log.subrange(0, m0.log.len() as int) =~= m0.log);
        }
        if g < k {
            assert(m0.queue.skip(g)[0] == m.queue[0]);
            assert(id == m0.queue[g]);
            assert(m3.log == m0.log + m0.queue.subrange(0, g + 1)) by {
                assert(m0.log + m0.queue.subrange(0, g + 1) =~= (m0.log + m0.queue.subrange(
                    0,
                    g,
                )).push(id));
            }
            if g + 1 < k {
                assert(m0.queue.skip(g + 1).is_prefix_of(m2.queue)) by {
                    let rest = m0.queue.skip(g + 1);
                    assert(m.queue.len() >= m0.queue.skip(g).len());
                    assert forall|j: int| 0 <= j < rest.len() implies m2.queue[j] == rest[j] by {
                        assert(m0.queue.skip(g)[j + 1] == m.queue.subrange(
                            0,
                            m0.queue.skip(g).len() as int,
                        )[j + 1]);
                        assert(m0.queue.skip(g)[j + 1] == m0.queue[g + 1 + j]);
                    }
                    assert(m2.queue.subrange(0, rest.len() as int) =~= rest);
                }
                assert(m0.queue.skip(g + 1).is_prefix_of(m3.queue)) by {
                    assert(m3.queue.subrange(0, m0.queue.skip(g + 1).len() as int) =~= m2.queue.subrange(
                        0,
                        m0.queue.skip(g + 1).len() as int,
                    ));
                }
            } else {
                assert(m0.queue.is_prefix_of(m3.log.skip(m0.log.len() as int))) by {
                    assert(m3.log.skip(m0.log.len() as int).subrange(0, k) =~= m0.queue);
                }
            }
        } else {
            assert(m0.queue.is_prefix_of(m3.log.skip(m0.log.len() as int))) by {
                assert(m3.log.skip(m0.log.len() as int).subrange(0, k) =~= m.log.skip(
                    m0.log.len() as int,
                ).subrange(0, k));
            }
        }
    } else if m.waiters.len() > 0 {
        let m3 = fire_spec(m);
        if g < k {
            assert(m0.queue.skip(g).is_prefix_of(m3.queue)) by {
                assert(m3.queue.subrange(0, m0.queue.skip(g).len() as int) =~= m.queue.subrange(
                    0,
                    m0.queue.skip(g).len() as int,
                ));
            }
        }
    }
}

/// The FIFO relation holds from any state to itself and is carried through
/// any number of run-loop iterations.
pub proof fn lemma_fifo_run(m0: ModelState, m: ModelState, fuel: nat)
    requires
        fifo_inv(m0, m),
    ensures
        fifo_inv(m0, run_n(m, fuel)),
    decreases fuel,
{
    if fuel > 0 && !quiescent(m) {
        lemma_fifo_step(m0, m);
        lemma_fifo_run(m0, run_step(m), (fuel - 1) as nat);
    }
}

/// Law: every task enqueued before the run loop starts is resumed in
/// enqueue order (FIFO delivery of the ready queue), and once the loop
/// reaches quiescence each of them has been resumed at least once.
pub proof fn lemma_run_fifo(m: ModelState, fuel: nat)
    ensures
        fifo_inv(m, run_n(m, fuel)),
        quiescent(run_n(m, fuel)) ==> m.queue.is_prefix_of(
            run_n(m, fuel).log.skip(m.log.len() as int),
        ),
{
    assert(fifo_inv(m, m)) by {
        assert(m.log.subrange(0, m.log.len() as int) =~= m.log);
        assert(m.log + m.queue.subrange(0, 0) =~= m.log);
        assert(m.queue.skip(0) =~= m.queue);
        assert(m.queue.subrange(0, m.queue.len() as int) =~= m.queue);
    }
    lemma_fifo_run(m, m, fuel);
    let m2 = run_n(m, fuel);
    if quiescent(m2) {
        let k = m.queue.len() as int;
        let g = m2.log.len() - m.log.len();
        if g < k {
            assert(m.queue.skip(g).is_prefix_of(m2.queue));
            assert(m.queue.skip(g).len() > 0);
            assert(false);
        }
    }
}

/// Law: a computation that spawns a first child awaiting a timer leaf of
/// positive duration and then a second child that completes without ever
/// suspending observes the second child's marker strictly before the first
/// child's, whatever the duration, as long as it is positive.
pub proof fn lemma_immediate_child_first(t1: u64, a: u64, b: u64, fuel: nat)
    requires
        t1 > 0,
        fuel >= 5,
    ensures
        ({
            let prog_a = seq![Step::AwaitTimer { duration: t1 }, Step::Emit { marker: a }];
            let prog_b = seq![Step::Emit { marker: b }];
            let root = seq![Step::SpawnChild { program: 0 }, Step::SpawnChild { program: 1 }];
            let m0 = ModelState {
                programs: seq![prog_a, prog_b],
                tasks: seq![TaskModel { steps: root, pc: 0, timer: None, done: false }],
                queue: seq![0u64],
                waiters: Seq::<Waiter>::empty(),
                now: 0u64,
                output: Seq::<u64>::empty(),
                log: Seq::<u64>::empty(),
            };
            run_n(m0, fuel).output == seq![b, a]
        }),
{
    reveal_with_fuel(advance, 8);
    reveal_with_fuel(earliest_waiter, 2);
    let prog_a = seq![Step::AwaitTimer { duration: t1 }, Step::Emit { marker: a }];
    let prog_b = seq![Step::Emit { marker: b }];
    let root = seq![Step::SpawnChild { program: 0 }, Step::SpawnChild { program: 1 }];
    let m0 = ModelState {
        programs: seq![prog_a, prog_b],
        tasks: seq![TaskModel { steps: root, pc: 0, timer: None, done: false }],
        queue: seq![0u64],
        waiters: Seq::<Waiter>::empty(),
        now: 0u64,
        output: Seq::<u64>::empty(),
        log: Seq::<u64>::empty(),
    };
    let ta0 = TaskModel { steps: prog_a, pc: 0, timer: None, done: false };
    let tb0 = TaskModel { steps: prog_b, pc: 0, timer: None, done: false };
    let root_done = TaskModel { steps: root, pc: 2, timer: None, done: true };
    let m1 = ModelState {
        programs: m0.programs,
        tasks: seq![root_done, ta0, tb0],
        queue: seq![1u64, 2u64],
        waiters: Seq::<Waiter>::empty(),
        now: 0u64,
        output: Seq::<u64>::empty(),
        log: seq![0u64],
    };
    assert(run_step(m0) =~~= m1);
    let leaf_waiting = TimerLeaf { deadline: t1, state: TimerState::Waiting { waker: 1u64 } };
    let ta_waiting = TaskModel { steps: prog_a, pc: 0, timer: Some(leaf_waiting), done: false };
    let m2 = ModelState {
        programs: m0.programs,
        tasks: seq![root_done, ta_waiting, tb0],
        queue: seq![2u64],
        waiters: seq![Waiter { deadline: t1, waker: 1u64 }],
        now: 0u64,
        output: Seq::<u64>::empty(),
        log: seq![0u64, 1u64],
    };
    assert(run_step(m1) =~~= m2);
    let tb_done = TaskModel { steps: prog_b, pc: 1, timer: None, done: true };
    let m3 = ModelState {
        programs: m0.programs,
        tasks: seq![root_done, ta_waiting, tb_done],
        queue: Seq::<u64>::empty(),
        waiters: seq![Waiter { deadline: t1, waker: 1u64 }],
        now: 0u64,
        output: seq![b],
        log: seq![0u64, 1u64, 2u64],
    };
    assert(run_step(m2) =~~= m3);
    let m4 = ModelState {
        programs: m0.programs,
        tasks: seq![root_done, ta_waiting, tb_done],
        queue: seq![1u64],
        waiters: Seq::<Waiter>::empty(),
        now: t1,
        output: seq![b],
        log: seq![0u64, 1u64, 2u64],
    };
    assert(run_step(m3) =~~= m4) by {
        assert(m3.waiters.remove(0) =~= Seq::<Waiter>::empty());
    }
    let ta_done = TaskModel { steps: prog_a, pc: 2, timer: None, done: true };
    let m5 = ModelState {
        programs: m0.programs,
        tasks: seq![root_done, ta_done, tb_done],
        queue: Seq::<u64>::empty(),
        waiters: Seq::<Waiter>::empty(),
        now: t1,
        output: seq![b, a],
        log: seq![0u64, 1u64, 2u64, 1u64],
    };
    assert(run_step(m4) =~~= m5);
    assert(run_n(m0, fuel) == run_n(m1, (fuel - 1) as nat));
    assert(run_n(m1, (fuel - 1) as nat) == run_n(m2, (fuel - 2) as nat));
    assert(run_n(m2, (fuel - 2) as nat) == run_n(m3, (fuel - 3) as nat));
    assert(run_n(m3, (fuel - 3) as nat) == run_n(m4, (fuel - 4) as nat));
    assert(run_n(m4, (fuel - 4) as nat) == run_n(m5, (fuel - 5) as nat));
    assert(quiescent(m5));
    assert(run_n(m5, (fuel - 5) as nat) == m5);
}

/// Law: invoking a notification handle for a task whose computation has
/// already completed is a safe no-op: the redundant resumption it provokes
/// leaves the whole executor unchanged.
pub proof fn lemma_resume_completed_noop(m: ModelState, id: int)
    requires
        0 <= id < m.tasks.len(),
        m.tasks[id].done,
    ensures
        advance(m, id) == m,
{
}

} // verus!
