//! The collaborators of the timer layer, modelled explicitly: the reactor's
//! registration table, the monotonic clock, the task queues and the spawned
//! tasks of a single-threaded cooperative executor.
//!
//! Exactly one piece of code runs at a time: a task makes progress only when
//! it is polled, and it is polled only when a registration it installed has
//! fired (or it has just been spawned, or a cancellation request woke it).
//! Time never moves on its own; the external caller advances it with
//! [`Runtime::run_until`] and friends, which fire due registrations and poll
//! woken tasks in a deterministic order.

use vstd::prelude::*;

use crate::once::OnceAction;
use crate::repeat::RepeatGenerator;
use crate::timer::Inner;

verus! {

/// Returned by the scheduling constructors when the target task queue does
/// not identify a live queue at call time.
#[derive(Clone, Copy, Debug, PartialEq, Eq, Structural)]
pub struct QueueNotFoundError {
    /// The index of the handle that was not found.
    pub index: usize,
}

/// Names a cooperative task queue of the executor.
///
/// Queues are created by [`Runtime::create_task_queue`]; a handle whose
/// index was never handed out does not identify a live queue.
#[derive(Clone, Copy, Debug, PartialEq, Eq, Structural)]
pub struct TaskQueueHandle {
    /// Position of the queue in the executor's table.
    pub index: usize,
}

/// A wakeup capability: invoking it resumes a suspended poll.  It resumes
/// either a spawned task (`task` holds its index) or the external caller
/// driving the runtime (`task` is `None`).
#[derive(Clone, Copy, Debug)]
pub struct Waker {
    /// The task to reschedule, or `None` for the external driver.
    pub task: Option<usize>,
}

/// A pending entry of the reactor's registration table.
#[derive(Clone, Copy, Debug)]
pub struct Reg {
    /// Absolute expiry: the registration is due once the clock reaches it.
    pub when: u64,
    /// Capability invoked when the registration fires.
    pub waker: Waker,
}

/// Where a once-action task currently stands.
#[derive(Clone, Copy, Debug)]
pub enum OncePhase {
    /// Suspended inside the await of the shared timer.
    Waiting,
    /// The shared timer fired and the action body is running.  `fired` is
    /// the instant the await resolved and the body began; `lap` is the
    /// timer state of the wait the body is suspended in, if any.
    Running { laps_left: u64, lap: Option<usize>, fired: u64 },
}

/// The body of a spawned task: what it is built from and where it stands.
#[derive(Clone, Copy, Debug)]
pub enum TaskBody {
    /// Awaits the shared timer at `state`, then runs `action`.
    Once { state: usize, action: OnceAction, phase: OncePhase },
    /// Repeatedly asks `gen` for the next delay, awaiting the timer at
    /// `slot` (one reused registration id) between invocations.  `count` is
    /// the number of invocations made so far; `born` is the spawn instant.
    Repeat { gen: RepeatGenerator, slot: usize, count: u64, born: u64 },
}

/// A spawned task: its body plus the executor's bookkeeping.
#[derive(Clone, Copy, Debug)]
pub struct TaskRec {
    /// Queue the task was spawned into.
    pub queue: usize,
    /// The task's body and current position.
    pub body: TaskBody,
    /// Scheduled to be polled at the next executor step.
    pub woken: bool,
    /// A cooperative stop request was delivered; observed at the next
    /// suspension point, never mid-stretch.
    pub cancelled: bool,
    /// The task has resolved and will never be polled again.
    pub done: bool,
    /// What the task resolved to: `Some` if the body completed naturally,
    /// `None` if it was cancelled before producing a value.
    pub output: Option<u64>,
}

/// The runtime model: clock, reactor table, shared timer states, tasks,
/// observable cells and task queues.
pub struct Runtime {
    /// The monotonic clock, in ticks.
    pub now: u64,
    /// The reactor's registration table, indexed by timer id.  A timer id
    /// is allocated once and is an index into this table forever; the entry
    /// is `Some` exactly while a registration for that id is pending.
    pub regs: Vec<Option<Reg>>,
    /// Shared timer states.  A [`crate::timer::Timer`] and the wrappers
    /// hold indices into this arena; sharing an index models sharing the
    /// state.
    pub states: Vec<Inner>,
    /// The spawned tasks, identified by index.
    pub tasks: Vec<TaskRec>,
    /// Observable cells that actions and generators write to.
    pub cells: Vec<u64>,
    /// Number of live task queues; handles `0 .. queues` are live.
    pub queues: usize,
}

/// The smaller of two mathematical integers.
pub open spec fn min_i(a: int, b: int) -> int {
    if a <= b {
        a
    } else {
        b
    }
}

impl Runtime {
    /// Task `t` currently holds the shared timer state `s` (it will read or
    /// mutate it when polled).
    pub open spec fn uses_slot(self, t: int, s: int) -> bool {
        match self.tasks@[t].body {
            TaskBody::Once { state, phase, .. } => {
                ||| s == state as int
                ||| (phase matches OncePhase::Running { lap: Some(l), .. } && s == l as int)
            },
            TaskBody::Repeat { slot, .. } => s == slot as int,
        }
    }

    /// No spawned task holds the shared timer state `s`; a standalone
    /// [`crate::timer::Timer`] may safely own it.
    pub open spec fn slot_free(self, s: int) -> bool {
        forall|t: int| 0 <= t < self.tasks@.len() ==> !self.uses_slot(t, s)
    }

    /// Task `t` writes to the observable cell `c`.
    pub open spec fn uses_cell(self, t: int, c: int) -> bool {
        match self.tasks@[t].body {
            TaskBody::Once { action, .. } => c == action.cell as int,
            TaskBody::Repeat { gen, .. } => c == gen.cell as int,
        }
    }

    /// No spawned task writes to the observable cell `c`.
    pub open spec fn cell_free(self, c: int) -> bool {
        forall|t: int| 0 <= t < self.tasks@.len() ==> !self.uses_cell(t, c)
    }

    /// Distinct tasks never write to the same cell, so each task's cell
    /// holds exactly what that task's progress says it holds.
    pub open spec fn no_cell_sharing(self) -> bool {
        forall|t1: int, t2: int, c: int|
            #![trigger self.uses_cell(t1, c), self.uses_cell(t2, c)]
            0 <= t1 < self.tasks@.len() && 0 <= t2 < self.tasks@.len() && t1 != t2 ==> !(
            self.uses_cell(t1, c) && self.uses_cell(t2, c))
    }

    /// A shared timer state agrees with the reactor table: its id names a
    /// table entry, and a pending registration under that id carries the
    /// state's expiry and its held wakeup capability.
    pub open spec fn slot_ok(self, i: int) -> bool {
        let s = self.states@[i];
        &&& (s.id as int) < self.regs@.len()
        &&& (self.regs@[s.id as int] matches Some(r) ==> r.when == s.when && s.waker
            == Some(r.waker))
        &&& (s.waker matches Some(w) ==> (w.task matches Some(t) ==> t < self.tasks@.len()))
    }

    /// Distinct shared timer states hold distinct registration ids: at most
    /// one registration per id, owned by one timer, at any instant.
    pub open spec fn ids_distinct(self) -> bool {
        forall|i: int, j: int|
            0 <= i < self.states@.len() && 0 <= j < self.states@.len() && i != j
                ==> self.states@[i].id != self.states@[j].id
    }

    /// No pending registration is overdue: the clock never moves past an
    /// expiry without firing it first.
    pub open spec fn regs_timely(self) -> bool {
        forall|id: int|
            0 <= id < self.regs@.len() && #[trigger] self.regs@[id] is Some
                ==> self.regs@[id]->0.when >= self.now
    }

    /// Every pending registration that names a task names a live one.
    pub open spec fn wakers_ok(self) -> bool {
        forall|id: int|
            0 <= id < self.regs@.len() && #[trigger] self.regs@[id] is Some
                ==> (self.regs@[id]->0.waker.task matches Some(t) ==> t < self.tasks@.len())
    }

    /// Well-formedness of a once-action task.
    pub open spec fn once_ok(self, t: int, state: usize, action: OnceAction, phase: OncePhase) -> bool {
        let k = self.tasks@[t];
        let sid = self.states@[state as int].id as int;
        &&& (state as int) < self.states@.len()
        &&& (action.cell as int) < self.cells@.len()
        &&& match phase {
            OncePhase::Waiting => {
                // a suspended waiter has a pending registration, and that
                // registration resumes this very task
                &&& (!k.done && !k.woken ==> self.regs@[sid] is Some && self.regs@[
                    sid
                ]->0.waker.task == Some(t as usize))
                &&& (k.done ==> self.regs@[sid] is None && self.states@[state as int].waker
                    is None)
                // the action has not begun: its cell is untouched
                &&& self.cells@[action.cell as int] == 0
                // a freshly woken waiter is polled before the clock moves on
                &&& (!k.done && !k.cancelled && k.woken ==> self.states@[state as int].when
                    >= self.now)
            },
            OncePhase::Running { laps_left, lap, fired } => {
                // once the await resolved, the shared state was released: no
                // wakeup capability, no registration — later rearming of the
                // shared state mutates something nobody is watching
                &&& laps_left <= action.laps
                &&& (lap is Some ==> laps_left >= 1)
                // the cell reads exactly "started plus one per finished wait"
                &&& self.cells@[action.cell as int] as int == min_i(
                    action.start + action.laps - laps_left,
                    u64::MAX as int,
                )
                // the body began when the await resolved and each finished
                // wait took exactly its length: the clock has reached the
                // end of the last completed wait
                &&& fired + (action.laps - laps_left) * action.lap_wait <= self.now
                // the pending wait expires exactly one lap length after the
                // previous one, and never lies more than one lap ahead
                &&& (lap matches Some(l) ==> self.states@[l as int].when as int == min_i(
                    fired + (action.laps - laps_left + 1) * action.lap_wait,
                    u64::MAX as int,
                ))
                &&& (lap matches Some(l) ==> self.states@[l as int].when as int <= self.now
                    + action.lap_wait)
                // a freshly woken wait is polled before the clock moves on
                &&& (lap matches Some(l) ==> (!k.done && !k.cancelled && k.woken
                    ==> self.states@[l as int].when >= self.now))
                &&& self.states@[state as int].waker is None
                &&& self.regs@[sid] is None
                &&& (!k.done ==> lap is Some)
                &&& (lap matches Some(l) ==> {
                    let lid = self.states@[l as int].id as int;
                    &&& (l as int) < self.states@.len()
                    &&& l != state
                    &&& (!k.done && !k.woken ==> self.regs@[lid] is Some && self.regs@[
                        lid
                    ]->0.waker.task == Some(t as usize))
                    &&& (k.done ==> self.regs@[lid] is None && self.states@[l as int].waker
                        is None)
                })
            },
        }
        &&& (k.done && k.cancelled ==> k.output is None)
        &&& (k.done && !k.cancelled ==> k.output == Some(action.result))
        &&& (k.done && !k.cancelled ==> (phase matches OncePhase::Running { laps_left, .. }
            && laps_left == 0))
    }

    /// Well-formedness of a repeat task.
    pub open spec fn repeat_ok(
        self,
        t: int,
        gen: RepeatGenerator,
        slot: usize,
        count: u64,
        born: u64,
    ) -> bool {
        let k = self.tasks@[t];
        let sid = self.states@[slot as int].id as int;
        let when = self.states@[slot as int].when;
        &&& (slot as int) < self.states@.len()
        &&& (gen.cell as int) < self.cells@.len()
        &&& gen.period >= 1
        &&& (!k.done && !k.woken ==> self.regs@[sid] is Some && self.regs@[sid]->0.waker.task
            == Some(t as usize))
        &&& (k.done ==> self.regs@[sid] is None && self.states@[slot as int].waker is None)
        // the observable cell is exactly the number of invocations made
        &&& self.cells@[gen.cell as int] == count
        &&& (gen.stop_at matches Some(s) ==> s >= 1 && (!k.done ==> count < s))
        &&& (k.done && k.cancelled ==> k.output is None)
        &&& (k.done && !k.cancelled ==> k.output == Some(0u64) && gen.stop_at == Some(count))
        // the reused timer expires exactly one period after each invocation
        &&& (!k.done ==> when as int == min_i(born + count * gen.period, u64::MAX as int))
        // and never lies more than one period ahead of the clock
        &&& (!k.done ==> when as int <= self.now + gen.period)
        // a freshly woken loop is polled before the clock moves on
        &&& (!k.done && !k.cancelled && k.woken ==> when >= self.now)
        &&& (k.done && !k.cancelled ==> self.now as int >= min_i(
            born + (count - 1) * gen.period,
            u64::MAX as int,
        ))
    }

    /// Well-formedness of task `t`.
    pub open spec fn task_ok(self, t: int) -> bool {
        let k = self.tasks@[t];
        &&& (k.queue as int) < self.queues as int
        // a cancellation request leaves the task scheduled, so the request
        // is observed at its next poll
        &&& (k.cancelled && !k.done ==> k.woken)
        &&& match k.body {
            TaskBody::Once { state, action, phase } => self.once_ok(t, state, action, phase),
            TaskBody::Repeat { gen, slot, count, born } => self.repeat_ok(
                t,
                gen,
                slot,
                count,
                born,
            ),
        }
    }

    /// Distinct tasks never share a timer state.
    pub open spec fn no_sharing(self) -> bool {
        forall|t1: int, t2: int, s: int|
            #![trigger self.uses_slot(t1, s), self.uses_slot(t2, s)]
            0 <= t1 < self.tasks@.len() && 0 <= t2 < self.tasks@.len() && t1 != t2 ==> !(
            self.uses_slot(t1, s) && self.uses_slot(t2, s))
    }

    /// The runtime invariant: every constructor establishes it, every
    /// operation preserves it.
    pub open spec fn inv(self) -> bool {
        &&& self.queues >= 1
        &&& self.now < u64::MAX
        &&& forall|i: int| 0 <= i < self.states@.len() ==> #[trigger] self.slot_ok(i)
        &&& self.ids_distinct()
        &&& self.wakers_ok()
        &&& forall|t: int| 0 <= t < self.tasks@.len() ==> #[trigger] self.task_ok(t)
        &&& self.no_sharing()
        &&& self.no_cell_sharing()
        &&& self.regs_timely()
    }

    /// A fresh runtime: clock at zero, nothing registered, no tasks, and
    /// one live task queue (the default queue of handle `0`).
    pub fn new() -> (rt: Runtime)
        ensures
            rt.inv(),
            rt.now == 0,
            rt.regs@.len() == 0,
            rt.states@.len() == 0,
            rt.tasks@.len() == 0,
            rt.cells@.len() == 0,
            rt.queues == 1,
    {
        Runtime {
            now: 0,
            regs: Vec::new(),
            states: Vec::new(),
            tasks: Vec::new(),
            cells: Vec::new(),
            queues: 1,
        }
    }

    /// The queue the runtime was created with; always live.
    pub fn default_queue(&self) -> (q: TaskQueueHandle)
        ensures
            q.index == 0,
    {
        TaskQueueHandle { index: 0 }
    }

    /// Create a new task queue and return its handle.
    pub fn create_task_queue(&mut self) -> (q: TaskQueueHandle)
        requires
            old(self).inv(),
            old(self).queues < usize::MAX,
        ensures
            final(self).inv(),
            q.index == old(self).queues,
            final(self).queues == old(self).queues + 1,
            final(self).now == old(self).now,
            final(self).regs@ == old(self).regs@,
            final(self).states@ == old(self).states@,
            final(self).tasks@ == old(self).tasks@,
            final(self).cells@ == old(self).cells@,
    {
        let q = TaskQueueHandle { index: self.queues };
        self.queues = self.queues + 1;
        proof {
            lemma_prefix_extension(*old(self), *self);
            assert(self.ids_distinct());
            assert forall|id: int|
                0 <= id < self.regs@.len() && #[trigger] self.regs@[id] is Some implies (
            self.regs@[id]->0.waker.task matches Some(t) ==> t < self.tasks@.len()) by {
                assert(old(self).regs@[id] == self.regs@[id]);
            }
        }
        q
    }

    /// Allocate a new observable cell holding `v`.
    pub fn new_cell(&mut self, v: u64) -> (i: usize)
        requires
            old(self).inv(),
        ensures
            final(self).inv(),
            i == old(self).cells@.len(),
            final(self).cells@ == old(self).cells@.push(v),
            final(self).cell_free(i as int),
            final(self).now == old(self).now,
            final(self).regs@ == old(self).regs@,
            final(self).states@ == old(self).states@,
            final(self).tasks@ == old(self).tasks@,
            final(self).queues == old(self).queues,
    {
        let i = self.cells.len();
        let ghost pre = *self;
        self.cells.push(v);
        proof {
            assert forall|t: int| 0 <= t < self.tasks@.len() implies !self.uses_cell(
                t,
                i as int,
            ) by {
                assert(pre.task_ok(t));
            }
        }
        proof {
            lemma_prefix_extension(*old(self), *self);
            assert(self.ids_distinct());
            assert forall|id: int|
                0 <= id < self.regs@.len() && #[trigger] self.regs@[id] is Some implies (
            self.regs@[id]->0.waker.task matches Some(t) ==> t < self.tasks@.len()) by {
                assert(old(self).regs@[id] == self.regs@[id]);
            }
        }
        i
    }

    /// Read an observable cell.
    pub fn cell(&self, i: usize) -> (v: u64)
        requires
            i < self.cells@.len(),
        ensures
            v == self.cells@[i as int],
    {
        self.cells[i]
    }
}

impl Runtime {
    /// Registration `id` is pending and its expiry has passed.
    pub open spec fn due_at(self, id: int) -> bool {
        &&& 0 <= id < self.regs@.len()
        &&& self.regs@[id] is Some
        &&& self.regs@[id]->0.when <= self.now
    }

    /// No pending registration has expired yet.
    pub open spec fn no_due(self) -> bool {
        forall|id: int| !self.due_at(id)
    }

    /// Task `t` is scheduled to be polled.
    pub open spec fn woken_at(self, t: int) -> bool {
        &&& 0 <= t < self.tasks@.len()
        &&& self.tasks@[t].woken
    }

    /// No task is scheduled to be polled.
    pub open spec fn no_woken(self) -> bool {
        forall|t: int| !self.woken_at(t)
    }

}

/// What stays fixed about a task across executor steps: its identity and
/// what it was built from; cancellation requests and completed outcomes
/// are never revoked.
pub open spec fn anchored(a: TaskRec, b: TaskRec) -> bool {
    &&& b.cancelled == a.cancelled
    &&& b.queue == a.queue
    &&& (a.done ==> b.done && b.output == a.output && b.body == a.body)
    // once a cancellation request is pending, the body never advances:
    // the request is observed at the next suspension point and the task
    // resolves without further work
    &&& (a.cancelled ==> b.body == a.body)
    &&& match (a.body, b.body) {
        (
            TaskBody::Once { state: s1, action: a1, .. },
            TaskBody::Once { state: s2, action: a2, .. },
        ) => s1 == s2 && a1 == a2,
        (
            TaskBody::Repeat { gen: g1, slot: l1, born: b1, count: c1 },
            TaskBody::Repeat { gen: g2, slot: l2, born: b2, count: c2 },
        ) => g1 == g2 && l1 == l2 && b1 == b2 && c2 >= c1,
        _ => false,
    }
}

/// What the executor never does to a once-action task between two states:
/// re-base its shared timer (only the handle's rearm does that), or move
/// the body backwards.  When the await resolves, the body begins exactly
/// at the expiry the shared timer held — which the executor kept as it
/// was; afterwards the firing instant is fixed and the remaining waits
/// only decrease.
pub open spec fn once_steps_ok(pre: Runtime, post: Runtime, t: int) -> bool {
    pre.tasks@[t].body matches TaskBody::Once { state, phase: p1, .. } ==> {
        &&& post.states@[state as int].when == pre.states@[state as int].when
        &&& (post.tasks@[t].body matches TaskBody::Once { phase: p2, .. } ==> match (p1, p2) {
            (OncePhase::Waiting, OncePhase::Waiting) => true,
            (OncePhase::Waiting, OncePhase::Running { fired, .. }) => fired == pre.states@[
                state as int
            ].when,
            (
                OncePhase::Running { laps_left: k1, fired: f1, .. },
                OncePhase::Running { laps_left: k2, fired: f2, .. },
            ) => f2 == f1 && k2 <= k1,
            (OncePhase::Running { .. }, OncePhase::Waiting) => false,
        })
    }
}

/// Contribution of one registration entry to the count of due entries.
pub open spec fn due_one(e: Option<Reg>, now: u64) -> nat {
    match e {
        Some(r) => if r.when <= now {
            1nat
        } else {
            0nat
        },
        None => 0nat,
    }
}

/// Number of due entries in a registration table.
pub open spec fn count_due_seq(regs: Seq<Option<Reg>>, now: u64) -> nat
    decreases regs.len(),
{
    if regs.len() == 0 {
        0nat
    } else {
        count_due_seq(regs.drop_last(), now) + due_one(regs.last(), now)
    }
}

/// Contribution of one task to the count of woken tasks.
pub open spec fn woken_one(k: TaskRec) -> nat {
    if k.woken {
        1nat
    } else {
        0nat
    }
}

/// Number of woken tasks.
pub open spec fn count_woken_seq(tasks: Seq<TaskRec>) -> nat
    decreases tasks.len(),
{
    if tasks.len() == 0 {
        0nat
    } else {
        count_woken_seq(tasks.drop_last()) + woken_one(tasks.last())
    }
}

/// Updating one entry changes the due count by the difference of the two
/// entries' contributions.
proof fn lemma_count_due_update(regs: Seq<Option<Reg>>, now: u64, i: int, v: Option<Reg>)
    requires
        0 <= i < regs.len(),
    ensures
        count_due_seq(regs.update(i, v), now) == count_due_seq(regs, now) - due_one(regs[i], now)
            + due_one(v, now),
    decreases regs.len(),
{
    let upd = regs.update(i, v);
    if i == regs.len() - 1 {
        assert(upd.drop_last() =~= regs.drop_last());
    } else {
        assert(upd.drop_last() =~= regs.drop_last().update(i, v));
        assert(upd.last() == regs.last());
        lemma_count_due_update(regs.drop_last(), now, i, v);
    }
}

/// Pointwise smaller tables have no larger a due count.
proof fn lemma_count_due_le(a: Seq<Option<Reg>>, b: Seq<Option<Reg>>, now: u64)
    requires
        b.len() >= a.len(),
        forall|j: int| 0 <= j < a.len() ==> due_one(#[trigger] b[j], now) <= due_one(a[j], now),
        forall|j: int| a.len() <= j < b.len() ==> due_one(#[trigger] b[j], now) == 0,
    ensures
        count_due_seq(b, now) <= count_due_seq(a, now),
    decreases b.len(),
{
    if b.len() > a.len() {
        assert(forall|j: int| 0 <= j < a.len() ==> b.drop_last()[j] == #[trigger] b[j]);
        lemma_count_due_le(a, b.drop_last(), now);
    } else if b.len() > 0 {
        assert(forall|j: int|
            0 <= j < a.len() - 1 ==> a.drop_last()[j] == #[trigger] a[j] && b.drop_last()[j]
                == b[j]);
        lemma_count_due_le(a.drop_last(), b.drop_last(), now);
        assert(due_one(b.last(), now) <= due_one(a.last(), now));
    }
}

/// Updating one task changes the woken count by the difference of the two
/// records' contributions.
proof fn lemma_count_woken_update(tasks: Seq<TaskRec>, i: int, v: TaskRec)
    requires
        0 <= i < tasks.len(),
    ensures
        count_woken_seq(tasks.update(i, v)) == count_woken_seq(tasks) - woken_one(tasks[i])
            + woken_one(v),
    decreases tasks.len(),
{
    let upd = tasks.update(i, v);
    if i == tasks.len() - 1 {
        assert(upd.drop_last() =~= tasks.drop_last());
    } else {
        assert(upd.drop_last() =~= tasks.drop_last().update(i, v));
        assert(upd.last() == tasks.last());
        lemma_count_woken_update(tasks.drop_last(), i, v);
    }
}

/// A runtime extended in place — clock advanced, cells and tables possibly
/// grown, but every old table entry and every task unchanged — keeps every
/// old shared state consistent and every task well-formed.
pub(crate) proof fn lemma_prefix_extension(pre: Runtime, post: Runtime)
    requires
        pre.inv(),
        post.queues >= pre.queues,
        post.now == pre.now,
        post.cells@.len() >= pre.cells@.len(),
        forall|c: int| 0 <= c < pre.cells@.len() ==> post.cells@[c] == pre.cells@[c],
        post.tasks@ == pre.tasks@,
        post.regs@.len() >= pre.regs@.len(),
        forall|j: int| 0 <= j < pre.regs@.len() ==> post.regs@[j] == pre.regs@[j],
        post.states@.len() >= pre.states@.len(),
        forall|i: int| 0 <= i < pre.states@.len() ==> post.states@[i] == pre.states@[i],
    ensures
        forall|i: int| 0 <= i < pre.states@.len() ==> #[trigger] post.slot_ok(i),
        forall|t: int| 0 <= t < post.tasks@.len() ==> #[trigger] post.task_ok(t),
        post.no_sharing(),
        forall|i: int|
            0 <= i < pre.states@.len() ==> (#[trigger] post.states@[i].id as int)
                < pre.regs@.len(),
        forall|s: int| pre.slot_free(s) ==> #[trigger] post.slot_free(s),
        post.no_cell_sharing(),
        forall|c: int| pre.cell_free(c) ==> #[trigger] post.cell_free(c),
{
    assert forall|t1: int, t2: int, c: int|
        #![trigger post.uses_cell(t1, c), post.uses_cell(t2, c)]
        0 <= t1 < post.tasks@.len() && 0 <= t2 < post.tasks@.len() && t1 != t2 implies !(
    post.uses_cell(t1, c) && post.uses_cell(t2, c)) by {
        assert(!(pre.uses_cell(t1, c) && pre.uses_cell(t2, c)));
    }
    assert forall|c: int| pre.cell_free(c) implies #[trigger] post.cell_free(c) by {
        assert forall|t: int| 0 <= t < post.tasks@.len() implies !post.uses_cell(t, c) by {
            assert(!pre.uses_cell(t, c));
        }
    }
    assert forall|i: int| 0 <= i < pre.states@.len() implies #[trigger] post.slot_ok(i) by {
        assert(pre.slot_ok(i));
    }
    assert forall|i: int| 0 <= i < pre.states@.len() implies (#[trigger] post.states@[i].id
        as int) < pre.regs@.len() by {
        assert(pre.slot_ok(i));
    }
    assert forall|t: int| 0 <= t < post.tasks@.len() implies #[trigger] post.task_ok(t) by {
        assert(pre.task_ok(t));
        match post.tasks@[t].body {
            TaskBody::Once { state, action, phase } => {
                assert(pre.slot_ok(state as int));
                if let OncePhase::Running { laps_left, lap, .. } = phase {
                    if let Some(l) = lap {
                        assert(pre.slot_ok(l as int));
                    }
                }
            },
            TaskBody::Repeat { gen, slot, count, born } => {
                assert(pre.slot_ok(slot as int));
            },
        }
    }
    assert forall|s: int| pre.slot_free(s) implies #[trigger] post.slot_free(s) by {
        assert(forall|t: int| 0 <= t < pre.tasks@.len() ==> !pre.uses_slot(t, s));
        assert forall|t: int| 0 <= t < post.tasks@.len() implies !post.uses_slot(t, s) by {
            assert(!pre.uses_slot(t, s));
        }
    }
    assert forall|t1: int, t2: int, s: int|
        #![trigger post.uses_slot(t1, s), post.uses_slot(t2, s)]
        0 <= t1 < post.tasks@.len() && 0 <= t2 < post.tasks@.len() && t1 != t2 implies !(
    post.uses_slot(t1, s) && post.uses_slot(t2, s)) by {
        assert(!(pre.uses_slot(t1, s) && pre.uses_slot(t2, s)));
    }
}

/// Mutating one shared state that no task holds — consistently with its own
/// registration entry, touching no other entry and not renaming its id —
/// preserves the whole invariant.
pub(crate) proof fn lemma_free_slot_update(pre: Runtime, post: Runtime, i: int)
    requires
        pre.inv(),
        0 <= i < pre.states@.len(),
        pre.slot_free(i),
        post.queues == pre.queues,
        post.now == pre.now,
        post.cells@ == pre.cells@,
        post.tasks@ == pre.tasks@,
        post.states@.len() == pre.states@.len(),
        forall|k: int| 0 <= k < pre.states@.len() && k != i ==> post.states@[k] == pre.states@[k],
        post.states@[i].id == pre.states@[i].id,
        post.regs@.len() == pre.regs@.len(),
        forall|j: int|
            0 <= j < pre.regs@.len() && j != pre.states@[i].id as int ==> post.regs@[j]
                == pre.regs@[j],
        post.slot_ok(i),
        post.regs@[pre.states@[i].id as int] matches Some(r) ==> r.when >= post.now,
    ensures
        post.inv(),
        forall|s: int| pre.slot_free(s) ==> #[trigger] post.slot_free(s),
{
    let id = pre.states@[i].id as int;
    assert forall|j: int|
        0 <= j < post.regs@.len() && #[trigger] post.regs@[j] is Some implies post.regs@[
    j]->0.when >= post.now by {
        if j != id {
            assert(post.regs@[j] == pre.regs@[j]);
        }
    }
    assert forall|k: int| 0 <= k < post.states@.len() implies #[trigger] post.slot_ok(k) by {
        if k != i {
            assert(pre.slot_ok(k));
            assert(post.states@[k].id != pre.states@[i].id);
        }
    }
    assert forall|k: int, j: int|
        0 <= k < post.states@.len() && 0 <= j < post.states@.len() && k != j implies post.states@[
        k].id != post.states@[j].id by {
        assert(pre.states@[k].id != pre.states@[j].id);
    }
    assert forall|j: int|
        0 <= j < post.regs@.len() && #[trigger] post.regs@[j] is Some implies (post.regs@[
    j]->0.waker.task matches Some(t) ==> t < post.tasks@.len()) by {
        if j != id {
            assert(pre.regs@[j] == post.regs@[j]);
        } else {
            assert(post.slot_ok(i));
        }
    }
    assert forall|t: int| 0 <= t < post.tasks@.len() implies #[trigger] post.task_ok(t) by {
        assert(pre.task_ok(t));
        assert(!pre.uses_slot(t, i));
        match post.tasks@[t].body {
            TaskBody::Once { state, action, phase } => {
                assert(state as int != i);
                assert(pre.slot_ok(state as int));
                assert(post.states@[state as int].id != pre.states@[i].id);
                if let OncePhase::Running { laps_left, lap, .. } = phase {
                    if let Some(l) = lap {
                        assert(l as int != i);
                        assert(pre.slot_ok(l as int));
                        assert(post.states@[l as int].id != pre.states@[i].id);
                    }
                }
            },
            TaskBody::Repeat { gen, slot, count, born } => {
                assert(slot as int != i);
                assert(pre.slot_ok(slot as int));
                assert(post.states@[slot as int].id != pre.states@[i].id);
            },
        }
    }
    assert forall|t1: int, t2: int, s: int|
        #![trigger post.uses_slot(t1, s), post.uses_slot(t2, s)]
        0 <= t1 < post.tasks@.len() && 0 <= t2 < post.tasks@.len() && t1 != t2 implies !(
    post.uses_slot(t1, s) && post.uses_slot(t2, s)) by {
        assert(!(pre.uses_slot(t1, s) && pre.uses_slot(t2, s)));
    }
    assert forall|t1: int, t2: int, c: int|
        #![trigger post.uses_cell(t1, c), post.uses_cell(t2, c)]
        0 <= t1 < post.tasks@.len() && 0 <= t2 < post.tasks@.len() && t1 != t2 implies !(
    post.uses_cell(t1, c) && post.uses_cell(t2, c)) by {
        assert(!(pre.uses_cell(t1, c) && pre.uses_cell(t2, c)));
    }
    assert forall|s: int| pre.slot_free(s) implies #[trigger] post.slot_free(s) by {
        assert forall|t: int| 0 <= t < post.tasks@.len() implies !post.uses_slot(t, s) by {
            assert(!pre.uses_slot(t, s));
        }
    }
}

/// Saturating addition on the clock domain: a sum past the largest
/// representable instant stays at that instant ("the far future").
pub fn sat_add(a: u64, b: u64) -> (r: u64)
    ensures
        r as int == min_i(a + b, u64::MAX as int),
{
    if a <= u64::MAX - b {
        a + b
    } else {
        u64::MAX
    }
}

/// Reactor contract: allocate a fresh, currently-unregistered timer id.
pub(crate) fn register_timer(regs: &mut Vec<Option<Reg>>) -> (id: usize)
    ensures
        id == old(regs)@.len(),
        final(regs)@ == old(regs)@.push(None),
{
    let id = regs.len();
    regs.push(None);
    id
}

/// Reactor contract: install or replace the pending registration for `id`
/// (idempotent overwrite).
pub(crate) fn insert_timer(regs: &mut Vec<Option<Reg>>, id: usize, when: u64, waker: Waker)
    requires
        id < old(regs)@.len(),
    ensures
        final(regs)@ == old(regs)@.update(id as int, Some(Reg { when, waker })),
{
    regs.set(id, Some(Reg { when, waker }));
}

/// Reactor contract: drop the pending registration for `id` if present;
/// no-op otherwise.
pub(crate) fn remove_timer(regs: &mut Vec<Option<Reg>>, id: usize)
    ensures
        final(regs)@.len() == old(regs)@.len(),
        id < old(regs)@.len() ==> final(regs)@ == old(regs)@.update(id as int, None),
        id >= old(regs)@.len() ==> final(regs)@ == old(regs)@,
{
    if id < regs.len() {
        regs.set(id, None);
    }
}

impl Runtime {
    /// One executor step on task `tid` leaves every other task — and every
    /// once-action task's standing with respect to its shared timer —
    /// exactly as the per-task frame says: other records untouched, shared
    /// expiries kept, firing instants fixed.
    proof fn lemma_step_frames(pre: Runtime, post: Runtime, tid: int)
        requires
            pre.inv(),
            0 <= tid < pre.tasks@.len(),
            post.tasks@.len() == pre.tasks@.len(),
            forall|t: int|
                0 <= t < pre.tasks@.len() && t != tid ==> post.tasks@[t] == pre.tasks@[t],
            forall|s: int|
                0 <= s < pre.states@.len() && !pre.uses_slot(tid, s) ==> post.states@[s]
                    == pre.states@[s],
            anchored(pre.tasks@[tid], post.tasks@[tid]),
            once_steps_ok(pre, post, tid),
        ensures
            forall|t: int|
                0 <= t < pre.tasks@.len() ==> anchored(
                    pre.tasks@[t],
                    #[trigger] post.tasks@[t],
                ),
            forall|t: int|
                0 <= t < pre.tasks@.len() ==> #[trigger] once_steps_ok(pre, post, t),
    {
        assert forall|t: int|
            0 <= t < pre.tasks@.len() implies anchored(
            pre.tasks@[t],
            #[trigger] post.tasks@[t],
        ) by {
            if t != tid {
                assert(post.tasks@[t] == pre.tasks@[t]);
            }
        }
        assert forall|t: int|
            0 <= t < pre.tasks@.len() implies #[trigger] once_steps_ok(pre, post, t) by {
            if t != tid {
                if let TaskBody::Once { state: s8, phase: p8, .. } = pre.tasks@[t].body {
                    assert(post.tasks@[t] == pre.tasks@[t]);
                    assert(pre.task_ok(t));
                    assert(pre.uses_slot(t, s8 as int));
                    assert(!pre.uses_slot(tid, s8 as int));
                    assert(post.states@[s8 as int] == pre.states@[s8 as int]);
                }
            }
        }
    }

    /// The per-task executor frame composes across consecutive steps.
    proof fn lemma_once_steps_trans(a: Runtime, b: Runtime, c: Runtime, t: int)
        requires
            0 <= t < a.tasks@.len(),
            anchored(a.tasks@[t], b.tasks@[t]),
            once_steps_ok(a, b, t),
            once_steps_ok(b, c, t),
        ensures
            once_steps_ok(a, c, t),
    {
        if let TaskBody::Once { state, phase: p1, .. } = a.tasks@[t].body {
            match b.tasks@[t].body {
                TaskBody::Once { state: sb, phase: pb, .. } => {
                    assert(sb == state);
                    assert(b.states@[state as int].when == a.states@[state as int].when);
                    assert(c.states@[state as int].when == b.states@[state as int].when);
                },
                TaskBody::Repeat { .. } => {
                    assert(false);
                },
            }
        }
    }

    /// A step that moves neither the tasks nor the timer states keeps the
    /// per-task executor frame.
    proof fn lemma_once_steps_refl(a: Runtime, b: Runtime, t: int)
        requires
            b.tasks@ == a.tasks@,
            b.states@ == a.states@,
        ensures
            once_steps_ok(a, b, t),
    {
    }

    /// Poll task `tid` once, as the executor does when a wakeup scheduled
    /// it.  A pending cancellation request is observed first — the task
    /// resolves to no value, releasing the timer it was suspended in.
    /// Otherwise the task advances: a once-action task completes its await
    /// or its current in-action wait and runs the body up to the next
    /// suspension point; a repeat task asks its generator and either stops
    /// or re-arms the reused timer one period ahead.  Code between
    /// suspension points is never interrupted.
    #[verifier::rlimit(100)]
    pub(crate) fn poll_task(&mut self, tid: usize)
        requires
            old(self).inv(),
            (tid as int) < old(self).tasks@.len(),
            old(self).tasks@[tid as int].woken,
        ensures
            final(self).inv(),
            final(self).now == old(self).now,
            final(self).queues == old(self).queues,
            final(self).tasks@.len() == old(self).tasks@.len(),
            final(self).cells@.len() == old(self).cells@.len(),
            final(self).states@.len() >= old(self).states@.len(),
            final(self).regs@.len() >= old(self).regs@.len(),
            !final(self).tasks@[tid as int].woken,
            forall|t: int|
                0 <= t < old(self).tasks@.len() && t != tid as int ==> final(self).tasks@[t]
                    == old(self).tasks@[t],
            forall|t: int|
                0 <= t < old(self).tasks@.len() ==> anchored(
                    old(self).tasks@[t],
                    #[trigger] final(self).tasks@[t],
                ),
            forall|t: int|
                0 <= t < old(self).tasks@.len() ==> #[trigger] once_steps_ok(
                    *old(self),
                    *final(self),
                    t,
                ),
            forall|j: int| #[trigger] final(self).due_at(j) ==> old(self).due_at(j),
            forall|s: int|
                0 <= s < old(self).states@.len() && #[trigger] old(self).slot_free(s)
                    ==> final(self).slot_free(s) && final(self).states@[s] == old(self).states@[s] && final(self).regs@[old(self).states@[s].id as int] == old(self).regs@[old(self).states@[s].id as int],
    {
        let ghost pre = *self;
        let mut k = self.tasks[tid];
        k.woken = false;
        proof {
            assert(pre.task_ok(tid as int));
        }
        if k.done {
            self.tasks.set(tid, k);
            proof {
                assert forall|i: int|
                    0 <= i < self.states@.len() && ((i < pre.states@.len() && pre.uses_slot(
                        tid as int,
                        i,
                    )) || i >= pre.states@.len()) implies #[trigger] self.slot_ok(i) by {
                    if i < pre.states@.len() {
                        assert(pre.slot_ok(i));
                    }
                }
                assert(self.task_ok(tid as int));
                Self::lemma_task_step(pre, *self, tid as int);
                assert(once_steps_ok(pre, *self, tid as int));
                Self::lemma_step_frames(pre, *self, tid as int);
            }
            return ;
        }
        if k.cancelled {
            // cancellation observed at this suspension point: release the
            // timer the task was suspended in and resolve to no value
            match k.body {
                TaskBody::Once { state, action, phase } => {
                    match phase {
                        OncePhase::Waiting => {
                            let mut st = self.states[state];
                            proof {
                                assert(pre.slot_ok(state as int));
                            }
                            st.release(&mut self.regs);
                            self.states.set(state, st);
                        },
                        OncePhase::Running { laps_left: _, lap, .. } => {
                            if let Some(l) = lap {
                                let mut st = self.states[l];
                                proof {
                                    assert(pre.slot_ok(l as int));
                                }
                                st.release(&mut self.regs);
                                self.states.set(l, st);
                            }
                        },
                    }
                },
                TaskBody::Repeat { gen: _, slot, count: _, born: _ } => {
                    let mut st = self.states[slot];
                    proof {
                        assert(pre.slot_ok(slot as int));
                    }
                    st.release(&mut self.regs);
                    self.states.set(slot, st);
                },
            }
            k.done = true;
            k.output = None;
            self.tasks.set(tid, k);
            proof {
                match pre.tasks@[tid as int].body {
                    TaskBody::Once { state, action, phase } => {
                        assert(pre.slot_ok(state as int));
                        if let OncePhase::Running { laps_left: _, lap: Some(l), .. } = phase {
                            assert(pre.slot_ok(l as int));
                        }
                    },
                    TaskBody::Repeat { gen: _, slot, count: _, born: _ } => {
                        assert(pre.slot_ok(slot as int));
                    },
                }
                assert forall|i: int|
                    0 <= i < self.states@.len() && ((i < pre.states@.len() && pre.uses_slot(
                        tid as int,
                        i,
                    )) || i >= pre.states@.len()) implies #[trigger] self.slot_ok(i) by {
                    if i < pre.states@.len() {
                        assert(pre.slot_ok(i));
                    }
                }
                assert(self.task_ok(tid as int));
                Self::lemma_task_step(pre, *self, tid as int);
                assert(once_steps_ok(pre, *self, tid as int));
                Self::lemma_step_frames(pre, *self, tid as int);
                assert forall|j: int| #[trigger] self.due_at(j) implies pre.due_at(j) by {
                    if !pre.touches_id(tid as int, j) {
                        assert(self.regs@[j] == pre.regs@[j]);
                    }
                }
            }
            return ;
        }
        match k.body {
            TaskBody::Once { state, action, phase } => {
                proof {
                    assert(pre.slot_ok(state as int));
                }
                let mut laps_left: u64 = 0;
                let mut fired_at: u64 = 0;
                match phase {
                    OncePhase::Waiting => {
                        let mut st = self.states[state];
                        if self.now >= st.when {
                            proof {
                                // woken and not cancelled: the clock has not
                                // moved past the expiry, so the await
                                // resolves exactly at it
                                assert(st.when >= pre.now);
                                assert(st.when == self.now);
                            }
                            // the await resolved: deregister (idempotently)
                            // and release the shared state — from here on,
                            // re-basing it moves a timer nobody watches
                            remove_timer(&mut self.regs, st.id);
                            st.waker = None;
                            self.states.set(state, st);
                            self.cells.set(action.cell, action.start);
                            laps_left = action.laps;
                            fired_at = self.now;
                        } else {
                            // woken while the expiry lies ahead (it was
                            // re-based): register again and stay suspended
                            let w = Waker { task: Some(tid) };
                            insert_timer(&mut self.regs, st.id, st.when, w);
                            st.waker = Some(w);
                            self.states.set(state, st);
                            self.tasks.set(tid, k);
                            proof {
                                assert forall|i: int|
                                    0 <= i < self.states@.len() && ((i < pre.states@.len()
                                        && pre.uses_slot(tid as int, i)) || i
                                        >= pre.states@.len()) implies #[trigger] self.slot_ok(
                                    i,
                                ) by {
                                    if i < pre.states@.len() {
                                        assert(pre.slot_ok(i));
                                    }
                                }
                                assert(self.task_ok(tid as int));
                                Self::lemma_task_step(pre, *self, tid as int);
                assert(once_steps_ok(pre, *self, tid as int));
                Self::lemma_step_frames(pre, *self, tid as int);
                                assert forall|j: int| #[trigger] self.due_at(j) implies pre.due_at(
                                    j,
                                ) by {
                                    if !pre.touches_id(tid as int, j) {
                                        assert(self.regs@[j] == pre.regs@[j]);
                                    }
                                }
                            }
                            return ;
                        }
                    },
                    OncePhase::Running { laps_left: ll, lap, fired } => {
                        fired_at = fired;
                        match lap {
                            Some(l) => {
                                proof {
                                    assert(pre.slot_ok(l as int));
                                }
                                let mut st = self.states[l];
                                if self.now >= st.when {
                                    proof {
                                        // punctual: the wait elapses exactly
                                        // at its expiry
                                        assert(st.when >= pre.now);
                                        assert(st.when == self.now);
                                    }
                                    // the in-action wait elapsed: release its
                                    // timer and credit the lap
                                    remove_timer(&mut self.regs, st.id);
                                    st.waker = None;
                                    self.states.set(l, st);
                                    let v = self.cells[action.cell];
                                    self.cells.set(action.cell, sat_add(v, 1));
                                    proof {
                                        assert(ll >= 1);
                                    }
                                    laps_left = ll - 1;
                                } else {
                                    let w = Waker { task: Some(tid) };
                                    insert_timer(&mut self.regs, st.id, st.when, w);
                                    st.waker = Some(w);
                                    self.states.set(l, st);
                                    self.tasks.set(tid, k);
                                    proof {
                                        assert forall|i: int|
                                            0 <= i < self.states@.len() && ((i
                                                < pre.states@.len() && pre.uses_slot(
                                                tid as int,
                                                i,
                                            )) || i >= pre.states@.len()) implies #[trigger] self.slot_ok(
                                            i,
                                        ) by {
                                            assert(pre.slot_ok(i));
                                        }
                                        assert(self.task_ok(tid as int));
                                        Self::lemma_task_step(pre, *self, tid as int);
                assert(once_steps_ok(pre, *self, tid as int));
                Self::lemma_step_frames(pre, *self, tid as int);
                                        assert forall|j: int| #[trigger] self.due_at(
                                            j,
                                        ) implies pre.due_at(j) by {
                                            if !pre.touches_id(tid as int, j) {
                                                assert(self.regs@[j] == pre.regs@[j]);
                                            }
                                        }
                                    }
                                    return ;
                                }
                            },
                            None => {
                                // a live running task always holds its wait
                                proof {
                                    assert(false);
                                }
                            },
                        }
                    },
                }
                // the action body advances from here to its next suspension
                // point (or to completion)
                proof {
                    if laps_left == action.laps {
                        assert((action.laps - laps_left) as int * (action.lap_wait as int)
                            == 0) by (nonlinear_arith)
                            requires
                                laps_left == action.laps,
                        ;
                    }
                    // the clock sits exactly at the end of the last
                    // completed wait
                    assert(self.now == fired_at + (action.laps - laps_left)
                        * action.lap_wait);
                }
                let when2 = sat_add(self.now, action.lap_wait);
                if self.now >= when2 {
                    // the waits are instantaneous: the body runs to completion
                    let v = self.cells[action.cell];
                    self.cells.set(action.cell, sat_add(v, laps_left));
                    k.body = TaskBody::Once {
                        state,
                        action,
                        phase: OncePhase::Running { laps_left: 0, lap: None, fired: fired_at },
                    };
                    k.done = true;
                    k.output = Some(action.result);
                } else if laps_left == 0 {
                    k.body = TaskBody::Once {
                        state,
                        action,
                        phase: OncePhase::Running { laps_left: 0, lap: None, fired: fired_at },
                    };
                    k.done = true;
                    k.output = Some(action.result);
                } else {
                    // begin the next wait: a fresh timer, registered for this
                    // task, and suspend
                    let id2 = register_timer(&mut self.regs);
                    let w = Waker { task: Some(tid) };
                    insert_timer(&mut self.regs, id2, when2, w);
                    let l2 = self.states.len();
                    self.states.push(Inner { id: id2, waker: Some(w), when: when2 });
                    k.body = TaskBody::Once {
                        state,
                        action,
                        phase: OncePhase::Running { laps_left, lap: Some(l2), fired: fired_at },
                    };
                }
                self.tasks.set(tid, k);
                proof {
                    assert forall|i: int|
                        0 <= i < self.states@.len() && ((i < pre.states@.len() && pre.uses_slot(
                            tid as int,
                            i,
                        )) || i >= pre.states@.len()) implies #[trigger] self.slot_ok(i) by {
                        if i < pre.states@.len() {
                            assert(pre.slot_ok(i));
                        }
                    }
                    if !k.done {
                        assert((action.laps - laps_left + 1) as int * (action.lap_wait as int)
                            == (action.laps - laps_left) as int * (action.lap_wait as int)
                            + action.lap_wait) by (nonlinear_arith);
                    }
                    assert((action.laps - laps_left) as int * (action.lap_wait as int)
                        >= 0) by (nonlinear_arith)
                        requires
                            laps_left <= action.laps,
                    ;
                    if action.lap_wait == 0 {
                        assert((action.laps as int) * (action.lap_wait as int) == 0
                            && (action.laps - laps_left) as int * (action.lap_wait as int)
                            == 0) by (nonlinear_arith)
                            requires
                                action.lap_wait == 0,
                        ;
                    }
                    if let TaskBody::Once { state: s9, action: a9, phase: p9 } = self.tasks@[
                        tid as int
                    ].body {
                        if let OncePhase::Running { laps_left: k9, lap: l9, fired: f9 } = p9 {
                            assert(k9 <= a9.laps);
                            assert(self.cells@[a9.cell as int] as int == min_i(
                                a9.start + a9.laps - k9,
                                u64::MAX as int,
                            ));
                            assert(f9 + (a9.laps - k9) * a9.lap_wait <= self.now);
                            if let Some(l) = l9 {
                                assert(self.states@[l as int].when as int == min_i(
                                    f9 + (a9.laps - k9 + 1) * a9.lap_wait,
                                    u64::MAX as int,
                                ));
                                assert(self.states@[l as int].when as int <= self.now
                                    + a9.lap_wait);
                            }
                        }
                    }
                    assert(self.task_ok(tid as int));
                    Self::lemma_task_step(pre, *self, tid as int);
                assert(once_steps_ok(pre, *self, tid as int));
                Self::lemma_step_frames(pre, *self, tid as int);
                    assert forall|j: int| #[trigger] self.due_at(j) implies pre.due_at(j) by {
                        if !pre.touches_id(tid as int, j) && j < pre.regs@.len() {
                            assert(self.regs@[j] == pre.regs@[j]);
                        }
                    }
                }
            },
            TaskBody::Repeat { gen, slot, count, born } => {
                proof {
                    assert(pre.slot_ok(slot as int));
                }
                let mut st = self.states[slot];
                if self.now >= st.when {
                    proof {
                        // woken and not cancelled: the clock has not moved
                        // past the expiry, so the loop fires exactly on time
                        assert(st.when >= pre.now);
                        assert(st.when == self.now);
                    }
                    // the reused timer fired (or the loop just started):
                    // deregister, then ask the generator what comes next
                    remove_timer(&mut self.regs, st.id);
                    st.waker = None;
                    let v = self.cells[gen.cell];
                    self.cells.set(gen.cell, sat_add(v, 1));
                    let c2 = sat_add(count, 1);
                    let stop = match gen.stop_at {
                        Some(s) => c2 == s,
                        None => false,
                    };
                    if stop {
                        // the generator answered "stop": the loop task ends,
                        // the reused id is already deregistered
                        self.states.set(slot, st);
                        k.body = TaskBody::Repeat { gen, slot, count: c2, born };
                        k.done = true;
                        k.output = Some(0);
                    } else {
                        // run again one period ahead, on the same id
                        let w = Waker { task: Some(tid) };
                        st.when = sat_add(self.now, gen.period);
                        st.waker = Some(w);
                        insert_timer(&mut self.regs, st.id, st.when, w);
                        self.states.set(slot, st);
                        k.body = TaskBody::Repeat { gen, slot, count: c2, born };
                    }
                } else {
                    let w = Waker { task: Some(tid) };
                    insert_timer(&mut self.regs, st.id, st.when, w);
                    st.waker = Some(w);
                    self.states.set(slot, st);
                }
                self.tasks.set(tid, k);
                proof {
                    assert forall|i: int|
                        0 <= i < self.states@.len() && ((i < pre.states@.len() && pre.uses_slot(
                            tid as int,
                            i,
                        )) || i >= pre.states@.len()) implies #[trigger] self.slot_ok(i) by {
                        assert(pre.slot_ok(i));
                    }
                    if !k.done {
                        assert((count as int + 1) * (gen.period as int) == count as int
                            * (gen.period as int) + (gen.period as int)) by (nonlinear_arith);
                    }
                    assert(pre.repeat_ok(tid as int, gen, slot, count, born));
                    let kk = self.tasks@[tid as int];
                    if let TaskBody::Repeat { gen: g2, slot: s2, count: c2, born: b2 } = kk.body {
                        assert(self.cells@[g2.cell as int] == c2);
                        if !kk.done {
                            assert(self.states@[s2 as int].when as int == min_i(
                                b2 + c2 * g2.period,
                                u64::MAX as int,
                            ));
                            assert(self.states@[s2 as int].when as int <= self.now
                                + g2.period);
                        }
                    }
                    assert(self.task_ok(tid as int));
                    Self::lemma_task_step(pre, *self, tid as int);
                assert(once_steps_ok(pre, *self, tid as int));
                Self::lemma_step_frames(pre, *self, tid as int);
                    assert forall|j: int| #[trigger] self.due_at(j) implies pre.due_at(j) by {
                        if !pre.touches_id(tid as int, j) {
                            assert(self.regs@[j] == pre.regs@[j]);
                        }
                    }
                }
            },
        }
    }

    /// Advancing the clock alone (no table changes) preserves the
    /// invariant: nothing in it bounds the clock from above but the
    /// horizon.
    proof fn lemma_advance(pre: Runtime, post: Runtime)
        requires
            pre.inv(),
            pre.no_woken(),
            post.now >= pre.now,
            post.now < u64::MAX,
            forall|id: int|
                0 <= id < pre.regs@.len() && #[trigger] pre.regs@[id] is Some ==> pre.regs@[
                    id
                ]->0.when >= post.now,
            post.regs@ == pre.regs@,
            post.states@ == pre.states@,
            post.tasks@ == pre.tasks@,
            post.cells@ == pre.cells@,
            post.queues == pre.queues,
        ensures
            post.inv(),
    {
        assert forall|i: int| 0 <= i < post.states@.len() implies #[trigger] post.slot_ok(i) by {
            assert(pre.slot_ok(i));
        }
        assert forall|t: int| 0 <= t < post.tasks@.len() implies #[trigger] post.task_ok(t) by {
            assert(pre.task_ok(t));
            assert(!pre.woken_at(t));
        }
        assert forall|t1: int, t2: int, s: int|
            #![trigger post.uses_slot(t1, s), post.uses_slot(t2, s)]
            0 <= t1 < post.tasks@.len() && 0 <= t2 < post.tasks@.len() && t1 != t2 implies !(
        post.uses_slot(t1, s) && post.uses_slot(t2, s)) by {
            assert(!(pre.uses_slot(t1, s) && pre.uses_slot(t2, s)));
        }
        assert forall|t1: int, t2: int, c: int|
            #![trigger post.uses_cell(t1, c), post.uses_cell(t2, c)]
            0 <= t1 < post.tasks@.len() && 0 <= t2 < post.tasks@.len() && t1 != t2 implies !(
        post.uses_cell(t1, c) && post.uses_cell(t2, c)) by {
            assert(!(pre.uses_cell(t1, c) && pre.uses_cell(t2, c)));
        }
    }

    /// Run the executor until it is quiescent at the current instant: fire
    /// every due registration and poll every woken task, repeatedly, until
    /// nothing is due and nothing is woken.  The clock does not move; this
    /// is what yielding to the executor does.
    pub fn drain(&mut self)
        requires
            old(self).inv(),
        ensures
            final(self).inv(),
            final(self).no_due(),
            final(self).no_woken(),
            final(self).now == old(self).now,
            final(self).queues == old(self).queues,
            final(self).tasks@.len() == old(self).tasks@.len(),
            final(self).cells@.len() == old(self).cells@.len(),
            final(self).states@.len() >= old(self).states@.len(),
            final(self).regs@.len() >= old(self).regs@.len(),
            forall|t: int|
                0 <= t < old(self).tasks@.len() ==> anchored(
                    old(self).tasks@[t],
                    #[trigger] final(self).tasks@[t],
                ),
            forall|t: int|
                0 <= t < old(self).tasks@.len() ==> #[trigger] once_steps_ok(
                    *old(self),
                    *final(self),
                    t,
                ),
            forall|s: int|
                0 <= s < old(self).states@.len() && #[trigger] old(self).slot_free(s) ==> final(self).slot_free(s) && final(self).states@[s] == old(self).states@[s] && (final(self).regs@[old(self).states@[s].id as int] == old(self).regs@[old(self).states@[
                    s
                ].id as int] || (final(self).regs@[old(self).states@[s].id as int] is None && (old(self).regs@[old(self).states@[s].id as int] matches Some(r) && r.when <= old(self).now))),
    {
        proof {
            assert forall|t: int|
                0 <= t < self.tasks@.len() implies #[trigger] once_steps_ok(
                *old(self),
                *self,
                t,
            ) by {
                Self::lemma_once_steps_refl(*old(self), *self, t);
            }
        }
        loop
            invariant
                self.inv(),
                self.now == old(self).now,
                self.queues == old(self).queues,
                self.tasks@.len() == old(self).tasks@.len(),
                self.cells@.len() == old(self).cells@.len(),
                self.states@.len() >= old(self).states@.len(),
                self.regs@.len() >= old(self).regs@.len(),
                forall|t: int|
                    0 <= t < old(self).tasks@.len() ==> anchored(
                        old(self).tasks@[t],
                        #[trigger] self.tasks@[t],
                    ),
                forall|t: int|
                    0 <= t < old(self).tasks@.len() ==> #[trigger] once_steps_ok(
                        *old(self),
                        *self,
                        t,
                    ),
                forall|s: int|
                    0 <= s < old(self).states@.len() && #[trigger] old(self).slot_free(s)
                        ==> self.slot_free(s) && self.states@[s] == old(self).states@[s] && (
                    self.regs@[old(self).states@[s].id as int] == old(self).regs@[old(self).states@[s].id as int] || (self.regs@[old(self).states@[s].id as int]
                        is None && (old(self).regs@[old(self).states@[s].id as int] matches Some( r, ) && r.when <= old(self).now))),
            ensures
                self.no_due(),
                self.no_woken(),
            decreases count_due_seq(self.regs@, self.now), count_woken_seq(self.tasks@),
        {
            let ghost mid = *self;
            if let Some(id) = self.due_reg() {
                self.fire(id);
                proof {
                    lemma_count_due_update(mid.regs@, mid.now, id as int, None);
                    let w = mid.regs@[id as int]->0.waker;
                    match w.task {
                        Some(u) => {
                            assert(mid.wakers_ok());
                            lemma_count_woken_update(
                                mid.tasks@,
                                u as int,
                                TaskRec { woken: true, ..mid.tasks@[u as int] },
                            );
                        },
                        None => {},
                    }
                    assert(count_due_seq(self.regs@, self.now) < count_due_seq(
                        mid.regs@,
                        mid.now,
                    ));
                    assert forall|t: int|
                        0 <= t < old(self).tasks@.len() implies anchored(
                        old(self).tasks@[t],
                        #[trigger] self.tasks@[t],
                    ) by {
                        assert(anchored(old(self).tasks@[t], mid.tasks@[t]));
                        assert(anchored(mid.tasks@[t], self.tasks@[t]));
                    }
                    assert forall|t: int|
                        0 <= t < old(self).tasks@.len() implies #[trigger] once_steps_ok(
                        *old(self),
                        *self,
                        t,
                    ) by {
                        assert(once_steps_ok(*old(self), mid, t));
                        assert(once_steps_ok(mid, *self, t));
                        Self::lemma_once_steps_trans(*old(self), mid, *self, t);
                    }
                    assert forall|s: int|
                        0 <= s < old(self).states@.len() && #[trigger] old(self).slot_free(
                            s,
                        ) implies self.slot_free(s) && self.states@[s] == old(self).states@[s]
                        && (self.regs@[old(self).states@[s].id as int] == old(self).regs@[old(self).states@[s].id as int] || (self.regs@[old(self).states@[s].id as int]
                        is None && (old(self).regs@[old(self).states@[s].id as int] matches Some( r, ) && r.when <= old(self).now))) by {
                        assert(mid.slot_free(s));
                        assert(mid.slot_ok(s));
                        if old(self).states@[s].id as int == id as int {
                            assert(mid.due_at(id as int));
                        }
                    }
                }
            } else if let Some(t) = self.woken_task() {
                self.poll_task(t);
                proof {
                    assert forall|j: int|
                        0 <= j < mid.regs@.len() implies due_one(self.regs@[j], self.now)
                        <= due_one(mid.regs@[j], mid.now) by {
                        match self.regs@[j] {
                            Some(r) => if r.when <= self.now {
                                assert(self.due_at(j));
                                assert(mid.due_at(j));
                            } else {
                            },
                            None => {},
                        }
                    }
                    assert forall|j: int|
                        mid.regs@.len() <= j < self.regs@.len() implies due_one(
                        #[trigger] self.regs@[j],
                        self.now,
                    ) == 0 by {
                        match self.regs@[j] {
                            Some(r) => if r.when <= self.now {
                                assert(self.due_at(j));
                                assert(mid.due_at(j));
                                assert(false);
                            } else {
                            },
                            None => {},
                        }
                    }
                    lemma_count_due_le(mid.regs@, self.regs@, self.now);
                    assert(self.tasks@ =~= mid.tasks@.update(t as int, self.tasks@[t as int]));
                    lemma_count_woken_update(mid.tasks@, t as int, self.tasks@[t as int]);
                    assert(count_woken_seq(self.tasks@) < count_woken_seq(mid.tasks@));
                    assert forall|t2: int|
                        0 <= t2 < old(self).tasks@.len() implies anchored(
                        old(self).tasks@[t2],
                        #[trigger] self.tasks@[t2],
                    ) by {
                        assert(anchored(old(self).tasks@[t2], mid.tasks@[t2]));
                        assert(anchored(mid.tasks@[t2], self.tasks@[t2]));
                    }
                    assert forall|t2: int|
                        0 <= t2 < old(self).tasks@.len() implies #[trigger] once_steps_ok(
                        *old(self),
                        *self,
                        t2,
                    ) by {
                        assert(once_steps_ok(*old(self), mid, t2));
                        assert(once_steps_ok(mid, *self, t2));
                        Self::lemma_once_steps_trans(*old(self), mid, *self, t2);
                    }
                    assert forall|s: int|
                        0 <= s < old(self).states@.len() && #[trigger] old(self).slot_free(
                            s,
                        ) implies self.slot_free(s) && self.states@[s] == old(self).states@[s]
                        && (self.regs@[old(self).states@[s].id as int] == old(self).regs@[old(self).states@[s].id as int] || (self.regs@[old(self).states@[s].id as int]
                        is None && (old(self).regs@[old(self).states@[s].id as int] matches Some( r, ) && r.when <= old(self).now))) by {
                        assert(mid.slot_free(s));
                        assert(mid.slot_ok(s));
                        assert(self.states@[s] == mid.states@[s]);
                        assert(self.regs@[mid.states@[s].id as int] == mid.regs@[mid.states@[
                            s
                        ].id as int]);
                    }
                }
            } else {
                break ;
            }
        }
    }

    /// Advance the clock to `deadline`, firing every timer that becomes due
    /// on the way, in expiry order, and letting the woken tasks run at each
    /// step.  On return the clock reads `deadline` (it never moves
    /// backwards) and the runtime is quiescent.
    pub fn run_until(&mut self, deadline: u64)
        requires
            old(self).inv(),
            deadline < u64::MAX,
        ensures
            final(self).inv(),
            final(self).no_due(),
            final(self).no_woken(),
            final(self).now == if old(self).now >= deadline {
                old(self).now
            } else {
                deadline
            },
            final(self).queues == old(self).queues,
            final(self).tasks@.len() == old(self).tasks@.len(),
            final(self).cells@.len() == old(self).cells@.len(),
            final(self).states@.len() >= old(self).states@.len(),
            final(self).regs@.len() >= old(self).regs@.len(),
            forall|t: int|
                0 <= t < old(self).tasks@.len() ==> anchored(
                    old(self).tasks@[t],
                    #[trigger] final(self).tasks@[t],
                ),
            forall|t: int|
                0 <= t < old(self).tasks@.len() ==> #[trigger] once_steps_ok(
                    *old(self),
                    *final(self),
                    t,
                ),
            forall|s: int|
                0 <= s < old(self).states@.len() && #[trigger] old(self).slot_free(s) ==> final(self).slot_free(s) && final(self).states@[s] == old(self).states@[s] && (final(self).regs@[old(self).states@[s].id as int] == old(self).regs@[old(self).states@[
                    s
                ].id as int] || (final(self).regs@[old(self).states@[s].id as int] is None && (old(self).regs@[old(self).states@[s].id as int] matches Some(r) && r.when <= final(self).now))),
    {
        self.drain();
        while self.now < deadline
            invariant
                self.inv(),
                self.no_due(),
                self.no_woken(),
                deadline < u64::MAX,
                self.now >= old(self).now,
                self.now <= deadline || self.now == old(self).now,
                self.queues == old(self).queues,
                self.tasks@.len() == old(self).tasks@.len(),
                self.cells@.len() == old(self).cells@.len(),
                self.states@.len() >= old(self).states@.len(),
                self.regs@.len() >= old(self).regs@.len(),
                forall|t: int|
                    0 <= t < old(self).tasks@.len() ==> anchored(
                        old(self).tasks@[t],
                        #[trigger] self.tasks@[t],
                    ),
                forall|t: int|
                    0 <= t < old(self).tasks@.len() ==> #[trigger] once_steps_ok(
                        *old(self),
                        *self,
                        t,
                    ),
                forall|s: int|
                    0 <= s < old(self).states@.len() && #[trigger] old(self).slot_free(s)
                        ==> self.slot_free(s) && self.states@[s] == old(self).states@[s] && (
                    self.regs@[old(self).states@[s].id as int] == old(self).regs@[old(self).states@[s].id as int] || (self.regs@[old(self).states@[s].id as int]
                        is None && (old(self).regs@[old(self).states@[s].id as int] matches Some( r, ) && r.when <= self.now))),
            decreases deadline - self.now,
        {
            let ghost mid = *self;
            let np = self.next_pending();
            let target = match np {
                Some(w) => if w <= deadline {
                    w
                } else {
                    deadline
                },
                None => deadline,
            };
            proof {
                if let Some(w) = np {
                    if w <= deadline {
                        let j = choose|j: int|
                            0 <= j < mid.regs@.len() && mid.regs@[j] is Some && mid.regs@[
                                j
                            ]->0.when == w;
                        assert(!mid.due_at(j));
                    }
                }
                assert(target > mid.now);
            }
            self.now = target;
            proof {
                Self::lemma_advance(mid, *self);
            }
            let ghost mid2 = *self;
            self.drain();
            proof {
                assert forall|t: int|
                    0 <= t < old(self).tasks@.len() implies anchored(
                    old(self).tasks@[t],
                    #[trigger] self.tasks@[t],
                ) by {
                    assert(anchored(old(self).tasks@[t], mid.tasks@[t]));
                    assert(anchored(mid2.tasks@[t], self.tasks@[t]));
                }
                assert forall|t: int|
                    0 <= t < old(self).tasks@.len() implies #[trigger] once_steps_ok(
                    *old(self),
                    *self,
                    t,
                ) by {
                    assert(once_steps_ok(*old(self), mid, t));
                    Self::lemma_once_steps_refl(mid, mid2, t);
                    Self::lemma_once_steps_trans(*old(self), mid, mid2, t);
                    assert(once_steps_ok(mid2, *self, t));
                    assert(anchored(old(self).tasks@[t], mid2.tasks@[t]));
                    Self::lemma_once_steps_trans(*old(self), mid2, *self, t);
                }
                assert forall|s: int|
                    0 <= s < old(self).states@.len() && #[trigger] old(self).slot_free(
                        s,
                    ) implies self.slot_free(s) && self.states@[s] == old(self).states@[s] && (
                self.regs@[old(self).states@[s].id as int] == old(self).regs@[old(self).states@[
                    s
                ].id as int] || (self.regs@[old(self).states@[s].id as int] is None && (old(
                self).regs@[old(self).states@[s].id as int] matches Some(r) && r.when
                    <= self.now))) by {
                    assert(mid.slot_free(s));
                    assert(mid2.tasks@ == mid.tasks@);
                    assert(mid2.states@ == mid.states@);
                    assert(mid2.regs@ == mid.regs@);
                    assert forall|t: int|
                        0 <= t < mid2.tasks@.len() implies !mid2.uses_slot(t, s) by {
                        assert(!mid.uses_slot(t, s));
                    }
                    assert(mid2.slot_free(s));
                    assert(mid2.states@[s] == mid.states@[s]);
                    let id = old(self).states@[s].id as int;
                    assert(mid2.states@[s].id as int == id);
                    assert(mid2.regs@[id] == mid.regs@[id]);
                }
            }
        }
    }

    /// Advance the clock by `d` ticks, as [`Runtime::run_until`] does.
    pub fn run_for(&mut self, d: u64)
        requires
            old(self).inv(),
            old(self).now + d < u64::MAX,
        ensures
            final(self).inv(),
            final(self).no_due(),
            final(self).no_woken(),
            final(self).now == old(self).now + d,
            final(self).queues == old(self).queues,
            final(self).tasks@.len() == old(self).tasks@.len(),
            final(self).cells@.len() == old(self).cells@.len(),
            final(self).states@.len() >= old(self).states@.len(),
            final(self).regs@.len() >= old(self).regs@.len(),
            forall|t: int|
                0 <= t < old(self).tasks@.len() ==> anchored(
                    old(self).tasks@[t],
                    #[trigger] final(self).tasks@[t],
                ),
            forall|s: int|
                0 <= s < old(self).states@.len() && #[trigger] old(self).slot_free(s) ==> final(self).slot_free(s) && final(self).states@[s] == old(self).states@[s],
    {
        let d2 = self.now + d;
        self.run_until(d2);
    }

    /// Allocating a fresh id alone — one empty entry appended to the
    /// registration table — preserves the invariant.
    pub(crate) proof fn lemma_register_fresh(pre: Runtime, post: Runtime)
        requires
            pre.inv(),
            post.now == pre.now,
            post.queues == pre.queues,
            post.cells@ == pre.cells@,
            post.tasks@ == pre.tasks@,
            post.states@ == pre.states@,
            post.regs@ == pre.regs@.push(None),
        ensures
            post.inv(),
    {
        assert forall|i: int| 0 <= i < post.states@.len() implies #[trigger] post.slot_ok(i) by {
            assert(pre.slot_ok(i));
        }
        assert forall|id: int|
            0 <= id < post.regs@.len() && #[trigger] post.regs@[id] is Some implies (post.regs@[
        id]->0.waker.task matches Some(tk) ==> tk < post.tasks@.len()) by {
            if id < pre.regs@.len() {
                assert(post.regs@[id] == pre.regs@[id]);
                assert(pre.wakers_ok());
            }
        }
        assert forall|t: int| 0 <= t < post.tasks@.len() implies #[trigger] post.task_ok(t) by {
            assert(pre.task_ok(t));
            match post.tasks@[t].body {
                TaskBody::Once { state, action, phase } => {
                    assert(pre.slot_ok(state as int));
                    if let OncePhase::Running { laps_left, lap, .. } = phase {
                        if let Some(l) = lap {
                            assert(pre.slot_ok(l as int));
                        }
                    }
                },
                TaskBody::Repeat { gen, slot, count, born } => {
                    assert(pre.slot_ok(slot as int));
                },
            }
        }
        assert forall|t1: int, t2: int, s: int|
            #![trigger post.uses_slot(t1, s), post.uses_slot(t2, s)]
            0 <= t1 < post.tasks@.len() && 0 <= t2 < post.tasks@.len() && t1 != t2 implies !(
        post.uses_slot(t1, s) && post.uses_slot(t2, s)) by {
            assert(!(pre.uses_slot(t1, s) && pre.uses_slot(t2, s)));
        }
        assert forall|t1: int, t2: int, c: int|
            #![trigger post.uses_cell(t1, c), post.uses_cell(t2, c)]
            0 <= t1 < post.tasks@.len() && 0 <= t2 < post.tasks@.len() && t1 != t2 implies !(
        post.uses_cell(t1, c) && post.uses_cell(t2, c)) by {
            assert(!(pre.uses_cell(t1, c) && pre.uses_cell(t2, c)));
        }
    }

    /// Spawning — one fresh, unregistered, waker-less timer state and one
    /// fresh task holding it and nothing else — preserves the invariant.
    pub(crate) proof fn lemma_spawn(pre: Runtime, post: Runtime)
        requires
            pre.inv(),
            post.now == pre.now,
            post.queues == pre.queues,
            post.cells@ == pre.cells@,
            post.regs@.len() >= pre.regs@.len(),
            forall|j: int| 0 <= j < pre.regs@.len() ==> post.regs@[j] == pre.regs@[j],
            forall|j: int|
                pre.regs@.len() <= j < post.regs@.len() ==> #[trigger] post.regs@[j] is None,
            post.states@.len() == pre.states@.len() + 1,
            forall|i: int| 0 <= i < pre.states@.len() ==> post.states@[i] == pre.states@[i],
            (post.states@[pre.states@.len() as int].id as int) < post.regs@.len(),
            post.regs@[post.states@[pre.states@.len() as int].id as int] is None,
            post.states@[pre.states@.len() as int].waker is None,
            forall|i: int|
                0 <= i < pre.states@.len() ==> (#[trigger] pre.states@[i].id) != post.states@[
                    pre.states@.len() as int
                ].id,
            post.tasks@.len() == pre.tasks@.len() + 1,
            forall|t: int| 0 <= t < pre.tasks@.len() ==> post.tasks@[t] == pre.tasks@[t],
            post.task_ok(pre.tasks@.len() as int),
            forall|s: int|
                #[trigger] post.uses_slot(pre.tasks@.len() as int, s) ==> s
                    == pre.states@.len(),
            forall|c: int|
                #[trigger] post.uses_cell(pre.tasks@.len() as int, c) ==> pre.cell_free(c),
        ensures
            post.inv(),
    {
        let n = pre.states@.len() as int;
        let nt = pre.tasks@.len() as int;
        assert forall|i: int| 0 <= i < post.states@.len() implies #[trigger] post.slot_ok(i) by {
            if i < n {
                assert(pre.slot_ok(i));
            }
        }
        assert forall|i: int, j: int|
            0 <= i < post.states@.len() && 0 <= j < post.states@.len() && i != j implies post.states@[
        i].id != post.states@[j].id by {
            if i < n && j < n {
                assert(pre.states@[i].id != pre.states@[j].id);
            }
        }
        assert forall|id: int|
            0 <= id < post.regs@.len() && #[trigger] post.regs@[id] is Some implies (post.regs@[
        id]->0.waker.task matches Some(tk) ==> tk < post.tasks@.len()) by {
            if id < pre.regs@.len() {
                assert(post.regs@[id] == pre.regs@[id]);
                assert(pre.wakers_ok());
            }
        }
        assert forall|t: int| 0 <= t < post.tasks@.len() implies #[trigger] post.task_ok(t) by {
            if t < nt {
                assert(pre.task_ok(t));
                assert(post.tasks@[t] == pre.tasks@[t]);
                match post.tasks@[t].body {
                    TaskBody::Once { state, action, phase } => {
                        assert(pre.slot_ok(state as int));
                        if let OncePhase::Running { laps_left, lap, .. } = phase {
                            if let Some(l) = lap {
                                assert(pre.slot_ok(l as int));
                            }
                        }
                    },
                    TaskBody::Repeat { gen, slot, count, born } => {
                        assert(pre.slot_ok(slot as int));
                    },
                }
            }
        }
        assert forall|t1: int, t2: int, s: int|
            #![trigger post.uses_slot(t1, s), post.uses_slot(t2, s)]
            0 <= t1 < post.tasks@.len() && 0 <= t2 < post.tasks@.len() && t1 != t2 implies !(
        post.uses_slot(t1, s) && post.uses_slot(t2, s)) by {
            if post.uses_slot(t1, s) && post.uses_slot(t2, s) {
                if t1 < nt && t2 < nt {
                    assert(pre.uses_slot(t1, s) && pre.uses_slot(t2, s));
                } else {
                    let o = if t1 == nt {
                        t2
                    } else {
                        t1
                    };
                    assert(post.uses_slot(o, s));
                    assert(pre.uses_slot(o, s));
                    assert(pre.task_ok(o));
                    assert(s < n);
                    assert(post.uses_slot(nt, s));
                    assert(s == n);
                }
            }
        }
        assert forall|t1: int, t2: int, c: int|
            #![trigger post.uses_cell(t1, c), post.uses_cell(t2, c)]
            0 <= t1 < post.tasks@.len() && 0 <= t2 < post.tasks@.len() && t1 != t2 implies !(
        post.uses_cell(t1, c) && post.uses_cell(t2, c)) by {
            if post.uses_cell(t1, c) && post.uses_cell(t2, c) {
                if t1 < nt && t2 < nt {
                    assert(pre.uses_cell(t1, c) && pre.uses_cell(t2, c));
                } else {
                    let o = if t1 == nt {
                        t2
                    } else {
                        t1
                    };
                    assert(post.uses_cell(o, c));
                    assert(pre.uses_cell(o, c));
                    assert(post.uses_cell(nt, c));
                    assert(pre.cell_free(c));
                    assert(!pre.uses_cell(o, c));
                }
            }
        }
    }

    /// Find a due registration, if any.
    fn due_reg(&self) -> (r: Option<usize>)
        ensures
            r matches Some(id) ==> self.due_at(id as int),
            r is None ==> self.no_due(),
    {
        let mut i: usize = 0;
        while i < self.regs.len()
            invariant
                i <= self.regs@.len(),
                forall|j: int| 0 <= j < i ==> !self.due_at(j),
            decreases self.regs@.len() - i,
        {
            if let Some(g) = self.regs[i] {
                if g.when <= self.now {
                    return Some(i);
                }
            }
            i = i + 1;
        }
        None
    }

    /// Find a woken task, if any.
    fn woken_task(&self) -> (r: Option<usize>)
        ensures
            r matches Some(t) ==> self.woken_at(t as int),
            r is None ==> self.no_woken(),
    {
        let mut i: usize = 0;
        while i < self.tasks.len()
            invariant
                i <= self.tasks@.len(),
                forall|j: int| 0 <= j < i ==> !self.woken_at(j),
            decreases self.tasks@.len() - i,
        {
            if self.tasks[i].woken {
                return Some(i);
            }
            i = i + 1;
        }
        None
    }

    /// The earliest expiry among pending registrations, if any is pending.
    fn next_pending(&self) -> (r: Option<u64>)
        ensures
            r is None ==> forall|j: int| 0 <= j < self.regs@.len() ==> self.regs@[j] is None,
            r matches Some(w) ==> {
                &&& exists|j: int|
                    0 <= j < self.regs@.len() && #[trigger] self.regs@[j] is Some && self.regs@[
                        j
                    ]->0.when == w
                &&& forall|j: int|
                    0 <= j < self.regs@.len() && #[trigger] self.regs@[j] is Some ==> self.regs@[
                        j
                    ]->0.when >= w
            },
    {
        let mut best: Option<u64> = None;
        let mut i: usize = 0;
        while i < self.regs.len()
            invariant
                i <= self.regs@.len(),
                best is None ==> forall|j: int| 0 <= j < i ==> self.regs@[j] is None,
                best matches Some(w) ==> {
                    &&& exists|j: int|
                        0 <= j < i && #[trigger] self.regs@[j] is Some && self.regs@[j]->0.when
                            == w
                    &&& forall|j: int|
                        0 <= j < i && #[trigger] self.regs@[j] is Some ==> self.regs@[j]->0.when
                            >= w
                },
            decreases self.regs@.len() - i,
        {
            if let Some(g) = self.regs[i] {
                best = match best {
                    None => Some(g.when),
                    Some(w) => if g.when < w {
                        Some(g.when)
                    } else {
                        Some(w)
                    },
                };
            }
            i = i + 1;
        }
        best
    }

    /// Fire a due registration: remove it from the table and invoke its
    /// wakeup capability, scheduling the named task (or the external
    /// driver) to be polled.
    fn fire(&mut self, id: usize)
        requires
            old(self).inv(),
            old(self).due_at(id as int),
        ensures
            final(self).inv(),
            final(self).now == old(self).now,
            final(self).queues == old(self).queues,
            final(self).cells@ == old(self).cells@,
            final(self).states@ == old(self).states@,
            final(self).regs@ == old(self).regs@.update(id as int, None),
            final(self).tasks@.len() == old(self).tasks@.len(),
            ({
                let w = old(self).regs@[id as int]->0.waker;
                match w.task {
                    Some(t) => final(self).tasks@ == old(self).tasks@.update(
                        t as int,
                        TaskRec { woken: true, ..old(self).tasks@[t as int] },
                    ),
                    None => final(self).tasks@ == old(self).tasks@,
                }
            }),
            forall|t: int|
                0 <= t < old(self).tasks@.len() ==> anchored(
                    old(self).tasks@[t],
                    #[trigger] final(self).tasks@[t],
                ),
            forall|t: int|
                0 <= t < old(self).tasks@.len() ==> #[trigger] once_steps_ok(
                    *old(self),
                    *final(self),
                    t,
                ),
            forall|j: int| #[trigger] final(self).due_at(j) ==> old(self).due_at(j),
            forall|s: int|
                0 <= s < old(self).states@.len() && #[trigger] old(self).slot_free(s)
                    ==> final(self).slot_free(s),
    {
        let ghost pre = *self;
        let g = self.regs[id].unwrap();
        remove_timer(&mut self.regs, id);
        if let Some(t) = g.waker.task {
            proof {
                assert(pre.regs@[id as int] is Some);
            }
            let mut k = self.tasks[t];
            k.woken = true;
            self.tasks.set(t, k);
        }
        proof {
            self.lemma_fire_inv(pre, id as int);
        }
    }

    /// Removing a due registration and waking the task it names keeps the
    /// invariant: the only task whose pending-registration clause could
    /// break is the one being woken, and a woken task owes none.
    proof fn lemma_fire_inv(self, pre: Runtime, id: int)
        requires
            pre.inv(),
            pre.due_at(id),
            self.now == pre.now,
            self.queues == pre.queues,
            self.cells@ == pre.cells@,
            self.states@ == pre.states@,
            self.regs@ == pre.regs@.update(id, None),
            ({
                let w = pre.regs@[id]->0.waker;
                match w.task {
                    Some(t) => self.tasks@ == pre.tasks@.update(
                        t as int,
                        TaskRec { woken: true, ..pre.tasks@[t as int] },
                    ),
                    None => self.tasks@ == pre.tasks@,
                }
            }),
        ensures
            self.inv(),
            forall|t: int|
                0 <= t < pre.tasks@.len() ==> anchored(pre.tasks@[t], #[trigger] self.tasks@[t]),
            forall|t: int|
                0 <= t < pre.tasks@.len() ==> #[trigger] once_steps_ok(pre, self, t),
            forall|j: int| #[trigger] self.due_at(j) ==> pre.due_at(j),
            forall|s: int|
                0 <= s < pre.states@.len() && #[trigger] pre.slot_free(s) ==> self.slot_free(s),
    {
        let w = pre.regs@[id]->0.waker;
        assert forall|i: int| 0 <= i < self.states@.len() implies #[trigger] self.slot_ok(i) by {
            assert(pre.slot_ok(i));
        }
        assert forall|j: int|
            0 <= j < self.regs@.len() && #[trigger] self.regs@[j] is Some implies (self.regs@[
        j]->0.waker.task matches Some(t) ==> t < self.tasks@.len()) by {
            assert(self.regs@[j] == pre.regs@[j]);
        }
        assert(pre.tasks.len() == pre.tasks@.len());
        assert forall|t: int| 0 <= t < self.tasks@.len() implies #[trigger] self.task_ok(t) by {
            assert(pre.task_ok(t));
            let hit = match w.task {
                Some(u) => u as int == t,
                None => false,
            };
            if !hit {
                assert(self.tasks@[t] == pre.tasks@[t]);
            }
            let k = pre.tasks@[t];
            match k.body {
                TaskBody::Once { state, action, phase } => {
                    assert(pre.slot_ok(state as int));
                    let sid = pre.states@[state as int].id as int;
                    match phase {
                        OncePhase::Waiting => {
                            if !hit && !k.done && !k.woken && sid == id {
                                // the removed registration named this very
                                // task, contradicting the case split
                                assert(pre.regs@[sid]->0.waker.task == Some(t as usize));
                                assert(false);
                            }
                        },
                        OncePhase::Running { laps_left, lap, fired } => {
                            if let Some(l) = lap {
                                assert(pre.slot_ok(l as int));
                                let lid = pre.states@[l as int].id as int;
                                if !hit && !k.done && !k.woken && lid == id {
                                    assert(pre.regs@[lid]->0.waker.task == Some(t as usize));
                                    assert(false);
                                }
                            }
                        },
                    }
                },
                TaskBody::Repeat { gen, slot, count, born } => {
                    assert(pre.slot_ok(slot as int));
                    let sid = pre.states@[slot as int].id as int;
                    if !hit && !k.done && !k.woken && sid == id {
                        assert(pre.regs@[sid]->0.waker.task == Some(t as usize));
                        assert(false);
                    }
                },
            }
        }
        assert forall|t1: int, t2: int, s: int|
            #![trigger self.uses_slot(t1, s), self.uses_slot(t2, s)]
            0 <= t1 < self.tasks@.len() && 0 <= t2 < self.tasks@.len() && t1 != t2 implies !(
        self.uses_slot(t1, s) && self.uses_slot(t2, s)) by {
            assert(!(pre.uses_slot(t1, s) && pre.uses_slot(t2, s)));
        }
        assert forall|t1: int, t2: int, c: int|
            #![trigger self.uses_cell(t1, c), self.uses_cell(t2, c)]
            0 <= t1 < self.tasks@.len() && 0 <= t2 < self.tasks@.len() && t1 != t2 implies !(
        self.uses_cell(t1, c) && self.uses_cell(t2, c)) by {
            assert(!(pre.uses_cell(t1, c) && pre.uses_cell(t2, c)));
        }
        assert forall|s: int|
            0 <= s < pre.states@.len() && pre.slot_free(s) implies #[trigger] self.slot_free(
            s,
        ) by {
            assert forall|t: int| 0 <= t < self.tasks@.len() implies !self.uses_slot(t, s) by {
                assert(!pre.uses_slot(t, s));
            }
        }
        assert forall|t: int|
            0 <= t < pre.tasks@.len() implies #[trigger] once_steps_ok(pre, self, t) by {
            assert(self.tasks@[t].body == pre.tasks@[t].body);
        }
    }

    /// Registration id `j` belongs to one of the timers task `tid` holds.
    pub open spec fn touches_id(self, tid: int, j: int) -> bool {
        match self.tasks@[tid].body {
            TaskBody::Once { state, phase, .. } => {
                ||| j == self.states@[state as int].id as int
                ||| (phase matches OncePhase::Running { lap: Some(l), .. } && j == self.states@[
                    l as int
                ].id as int)
            },
            TaskBody::Repeat { slot, .. } => j == self.states@[slot as int].id as int,
        }
    }

    /// A state that task `tid` does not hold has an id the task cannot
    /// touch: distinct states hold distinct ids.
    proof fn lemma_untouched_id(self, tid: int, k: int)
        requires
            self.inv(),
            0 <= tid < self.tasks@.len(),
            0 <= k < self.states@.len(),
            !self.uses_slot(tid, k),
        ensures
            !self.touches_id(tid, self.states@[k].id as int),
    {
        assert(self.task_ok(tid));
        let idk = self.states@[k].id as int;
        if self.touches_id(tid, idk) {
            match self.tasks@[tid].body {
                TaskBody::Once { state, phase, .. } => {
                    if idk == self.states@[state as int].id as int {
                        if k != state as int {
                            assert(self.states@[k].id != self.states@[state as int].id);
                        }
                        assert(self.uses_slot(tid, k));
                    } else {
                        match phase {
                            OncePhase::Running { lap: Some(l), .. } => {
                                if k != l as int {
                                    assert(self.states@[k].id != self.states@[l as int].id);
                                }
                                assert(self.uses_slot(tid, k));
                            },
                            _ => {},
                        }
                    }
                },
                TaskBody::Repeat { slot, .. } => {
                    if k != slot as int {
                        assert(self.states@[k].id != self.states@[slot as int].id);
                    }
                    assert(self.uses_slot(tid, k));
                },
            }
        }
    }

    /// One executor step on task `tid` — its record rewritten, the timers
    /// it holds mutated consistently with their registrations, fresh timers
    /// possibly appended — preserves the invariant and leaves every other
    /// task's world untouched.
    pub(crate) proof fn lemma_task_step(pre: Runtime, post: Runtime, tid: int)
        requires
            pre.inv(),
            0 <= tid < pre.tasks@.len(),
            post.now == pre.now,
            post.queues == pre.queues,
            post.cells@.len() == pre.cells@.len(),
            post.tasks@.len() == pre.tasks@.len(),
            forall|t: int|
                0 <= t < pre.tasks@.len() && t != tid ==> post.tasks@[t] == pre.tasks@[t],
            post.states@.len() >= pre.states@.len(),
            forall|s: int|
                0 <= s < pre.states@.len() && !pre.uses_slot(tid, s) ==> post.states@[s]
                    == pre.states@[s],
            forall|s: int|
                0 <= s < pre.states@.len() && #[trigger] pre.uses_slot(tid, s) ==> post.states@[
                    s
                ].id == pre.states@[s].id,
            post.regs@.len() >= pre.regs@.len(),
            forall|j: int|
                0 <= j < pre.regs@.len() && !pre.touches_id(tid, j) ==> post.regs@[j]
                    == pre.regs@[j],
            forall|j: int|
                pre.regs@.len() <= j < post.regs@.len() && #[trigger] post.regs@[j] is Some ==> (
                post.regs@[j]->0.waker.task matches Some(u) ==> u < post.tasks@.len()),
            forall|s: int|
                pre.states@.len() <= s < post.states@.len() ==> pre.regs@.len() <= (
                #[trigger] post.states@[s].id as int) < post.regs@.len(),
            forall|s1: int, s2: int|
                pre.states@.len() <= s1 < post.states@.len() && pre.states@.len() <= s2
                    < post.states@.len() && s1 != s2 ==> post.states@[s1].id != post.states@[
                    s2
                ].id,
            forall|i: int|
                0 <= i < post.states@.len() && ((i < pre.states@.len() && pre.uses_slot(tid, i))
                    || i >= pre.states@.len()) ==> #[trigger] post.slot_ok(i),
            post.task_ok(tid),
            forall|s: int|
                #[trigger] post.uses_slot(tid, s) ==> pre.uses_slot(tid, s) || pre.states@.len()
                    <= s < post.states@.len(),
            forall|c: int| #[trigger] post.uses_cell(tid, c) ==> pre.uses_cell(tid, c),
            forall|c: int|
                0 <= c < pre.cells@.len() && !pre.uses_cell(tid, c) ==> post.cells@[c]
                    == pre.cells@[c],
            forall|j: int|
                0 <= j < post.regs@.len() && #[trigger] post.regs@[j] is Some && !(j
                    < pre.regs@.len() && post.regs@[j] == pre.regs@[j]) ==> post.regs@[
                    j
                ]->0.when >= post.now,
        ensures
            post.inv(),
            forall|s: int|
                0 <= s < pre.states@.len() && #[trigger] pre.slot_free(s) ==> post.slot_free(s)
                    && post.states@[s] == pre.states@[s] && post.regs@[pre.states@[s].id as int]
                    == pre.regs@[pre.states@[s].id as int],
    {
        assert(pre.task_ok(tid));
        assert forall|j: int|
            0 <= j < post.regs@.len() && #[trigger] post.regs@[j] is Some implies post.regs@[
        j]->0.when >= post.now by {
            if j < pre.regs@.len() && post.regs@[j] == pre.regs@[j] {
                assert(pre.regs@[j] is Some);
            }
        }
        assert forall|k: int|
            0 <= k < pre.states@.len() implies post.states@[k].id == pre.states@[k].id by {
            if !pre.uses_slot(tid, k) {
                assert(post.states@[k] == pre.states@[k]);
            }
        }
        assert forall|k: int| 0 <= k < post.states@.len() implies #[trigger] post.slot_ok(k) by {
            if k < pre.states@.len() && !pre.uses_slot(tid, k) {
                assert(pre.slot_ok(k));
                pre.lemma_untouched_id(tid, k);
                assert(post.regs@[pre.states@[k].id as int] == pre.regs@[pre.states@[
                    k
                ].id as int]);
                assert(post.states@[k] == pre.states@[k]);
            }
        }
        assert forall|k1: int, k2: int|
            0 <= k1 < post.states@.len() && 0 <= k2 < post.states@.len() && k1 != k2 implies post.states@[
        k1].id != post.states@[k2].id by {
            let n = pre.states@.len() as int;
            if k1 < n && k2 < n {
                assert(pre.states@[k1].id != pre.states@[k2].id);
            } else if k1 < n {
                assert(pre.slot_ok(k1));
            } else if k2 < n {
                assert(pre.slot_ok(k2));
            }
        }
        assert forall|j: int|
            0 <= j < post.regs@.len() && #[trigger] post.regs@[j] is Some implies (post.regs@[
        j]->0.waker.task matches Some(u) ==> u < post.tasks@.len()) by {
            if j < pre.regs@.len() {
                if pre.touches_id(tid, j) {
                    match pre.tasks@[tid].body {
                        TaskBody::Once { state, phase, .. } => {
                            if j == pre.states@[state as int].id as int {
                                assert(post.slot_ok(state as int));
                            } else {
                                match phase {
                                    OncePhase::Running { lap: Some(l), .. } => {
                                        assert(post.slot_ok(l as int));
                                    },
                                    _ => {},
                                }
                            }
                        },
                        TaskBody::Repeat { slot, .. } => {
                            assert(post.slot_ok(slot as int));
                        },
                    }
                } else {
                    assert(post.regs@[j] == pre.regs@[j]);
                }
            }
        }
        assert forall|t: int| 0 <= t < post.tasks@.len() implies #[trigger] post.task_ok(t) by {
            if t != tid {
                assert(pre.task_ok(t));
                assert(post.tasks@[t] == pre.tasks@[t]);
                match pre.tasks@[t].body {
                    TaskBody::Once { state, action, phase } => {
                        assert(pre.uses_cell(t, action.cell as int));
                        assert(!pre.uses_cell(tid, action.cell as int));
                        assert(post.cells@[action.cell as int] == pre.cells@[action.cell as int]);
                        assert(pre.uses_slot(t, state as int));
                        assert(!pre.uses_slot(tid, state as int));
                        assert(pre.slot_ok(state as int));
                        pre.lemma_untouched_id(tid, state as int);
                        assert(post.states@[state as int] == pre.states@[state as int]);
                        if let OncePhase::Running { laps_left, lap, .. } = phase {
                            if let Some(l) = lap {
                                assert(pre.uses_slot(t, l as int));
                                assert(!pre.uses_slot(tid, l as int));
                                assert(pre.slot_ok(l as int));
                                pre.lemma_untouched_id(tid, l as int);
                                assert(post.states@[l as int] == pre.states@[l as int]);
                            }
                        }
                    },
                    TaskBody::Repeat { gen, slot, count, born } => {
                        assert(pre.uses_cell(t, gen.cell as int));
                        assert(!pre.uses_cell(tid, gen.cell as int));
                        assert(post.cells@[gen.cell as int] == pre.cells@[gen.cell as int]);
                        assert(pre.uses_slot(t, slot as int));
                        assert(!pre.uses_slot(tid, slot as int));
                        assert(pre.slot_ok(slot as int));
                        pre.lemma_untouched_id(tid, slot as int);
                        assert(post.states@[slot as int] == pre.states@[slot as int]);
                    },
                }
            }
        }
        assert forall|t1: int, t2: int, c: int|
            #![trigger post.uses_cell(t1, c), post.uses_cell(t2, c)]
            0 <= t1 < post.tasks@.len() && 0 <= t2 < post.tasks@.len() && t1 != t2 implies !(
        post.uses_cell(t1, c) && post.uses_cell(t2, c)) by {
            if post.uses_cell(t1, c) && post.uses_cell(t2, c) {
                if t1 != tid && t2 != tid {
                    assert(pre.uses_cell(t1, c) && pre.uses_cell(t2, c));
                } else {
                    let o = if t1 == tid {
                        t2
                    } else {
                        t1
                    };
                    assert(post.uses_cell(o, c) && post.uses_cell(tid, c));
                    assert(pre.uses_cell(o, c));
                    assert(pre.uses_cell(tid, c));
                }
            }
        }
        assert forall|t1: int, t2: int, s: int|
            #![trigger post.uses_slot(t1, s), post.uses_slot(t2, s)]
            0 <= t1 < post.tasks@.len() && 0 <= t2 < post.tasks@.len() && t1 != t2 implies !(
        post.uses_slot(t1, s) && post.uses_slot(t2, s)) by {
            if post.uses_slot(t1, s) && post.uses_slot(t2, s) {
                if t1 != tid && t2 != tid {
                    assert(pre.uses_slot(t1, s) && pre.uses_slot(t2, s));
                } else {
                    let o = if t1 == tid {
                        t2
                    } else {
                        t1
                    };
                    assert(post.uses_slot(o, s) && post.uses_slot(tid, s));
                    assert(pre.uses_slot(o, s));
                    assert(pre.task_ok(o));
                    assert(s < pre.states@.len() as int);
                    assert(pre.uses_slot(tid, s));
                }
            }
        }
        assert forall|s: int|
            0 <= s < pre.states@.len() && #[trigger] pre.slot_free(s) implies post.slot_free(s)
            && post.states@[s] == pre.states@[s] && post.regs@[pre.states@[s].id as int]
            == pre.regs@[pre.states@[s].id as int] by {
            assert(!pre.uses_slot(tid, s));
            assert(pre.slot_ok(s));
            pre.lemma_untouched_id(tid, s);
            assert(post.states@[s] == pre.states@[s]);
            assert(post.regs@[pre.states@[s].id as int] == pre.regs@[pre.states@[s].id as int]);
            assert forall|t: int| 0 <= t < post.tasks@.len() implies !post.uses_slot(t, s) by {
                if t != tid {
                    assert(post.tasks@[t] == pre.tasks@[t]);
                    assert(!pre.uses_slot(t, s));
                } else {
                    if post.uses_slot(tid, s) {
                        assert(pre.uses_slot(tid, s) || s >= pre.states@.len());
                    }
                }
            }
        }
    }
}

} // verus!
