//! Run an action exactly once, no earlier than a chosen point in time.
//!
//! A [`TimerActionOnce`] spawns a background task that awaits a timer and
//! then runs a caller-supplied action.  The handle that remains with the
//! caller can cancel the task, wait for its result, or re-base the timer —
//! it shares the timer's state with the spawned task for exactly that.

use vstd::prelude::*;

use crate::runtime::{
    anchored, min_i, register_timer, remove_timer, OncePhase, QueueNotFoundError, Reg, Runtime,
    TaskBody, TaskQueueHandle, TaskRec,
};
use crate::timer::{Inner, Timer};

verus! {

/// The caller-supplied action of a [`TimerActionOnce`], written as an
/// explicit cooperative script so that its suspension points are visible
/// to the scheduler model.
///
/// When the action begins it stores `start` into the shared cell `cell`.
/// It then performs `laps` timed waits of `lap_wait` ticks each — every
/// wait is a fresh one-shot timer and a suspension point — and increments
/// the cell after each wait.  Completing naturally produces `result`.
///
/// The script covers bodies that compute and sleep.  A body that itself
/// spawns further detached tasks has no counterpart here: what such a
/// spawn outlives cannot be expressed in this action model.
#[derive(Clone, Copy, Debug)]
pub struct OnceAction {
    /// Index of the runtime cell the action writes to.
    pub cell: usize,
    /// Value stored into the cell when the action body begins.
    pub start: u64,
    /// Number of timed waits the body performs after starting.
    pub laps: u64,
    /// Length of each timed wait, in ticks.
    pub lap_wait: u64,
    /// Value the action produces when it runs to completion.
    pub result: u64,
}

/// Fires an action once after a delay, in the background.
///
/// The handle bundles the spawned task and a second reference to the
/// timer's shared state, kept purely to read its id for cleanup and to
/// re-base its expiry when rearming.
#[derive(Clone, Copy, Debug)]
pub struct TimerActionOnce {
    /// Index of the spawned task.
    pub task: usize,
    /// The shared timer state the spawned task awaits.
    pub state: usize,
}

impl TimerActionOnce {
    /// The handle names a live once-action task, and `state` is that
    /// task's shared timer state.
    pub open spec fn wf(self, rt: Runtime) -> bool {
        &&& (self.task as int) < rt.tasks@.len()
        &&& (rt.tasks@[self.task as int].body matches TaskBody::Once { state, .. } && state
            == self.state)
    }

    /// The action the spawned task runs.
    pub open spec fn action_of(self, rt: Runtime) -> OnceAction
        recommends
            self.wf(rt),
    {
        rt.tasks@[self.task as int].body->Once_action
    }

    /// Schedules `action` to run once, `when` ticks from now, on the task
    /// queue `tq`.  A fresh timer id is allocated, a timer over it is built
    /// and moved into a task spawned into `tq`; the handle keeps the shared
    /// state.  Fails — synchronously, never later — with
    /// [`QueueNotFoundError`] exactly when `tq` is not a live queue.
    pub fn do_in_into(rt: &mut Runtime, when: u64, action: OnceAction, tq: TaskQueueHandle) -> (r:
        Result<TimerActionOnce, QueueNotFoundError>)
        requires
            old(rt).inv(),
            old(rt).now + when <= u64::MAX,
            (action.cell as int) < old(rt).cells@.len(),
            old(rt).cell_free(action.cell as int),
            old(rt).cells@[action.cell as int] == 0,
        ensures
            final(rt).inv(),
            final(rt).now == old(rt).now,
            final(rt).cells@ == old(rt).cells@,
            final(rt).queues == old(rt).queues,
            final(rt).regs@ == old(rt).regs@.push(None),
            final(rt).states@ == old(rt).states@.push(
                Inner {
                    id: old(rt).regs@.len() as usize,
                    waker: None,
                    when: (old(rt).now + when) as u64,
                },
            ),
            r is Err <==> (tq.index as int) >= old(rt).queues as int,
            r matches Err(e) ==> e.index == tq.index && final(rt).tasks@ == old(rt).tasks@,
            r matches Ok(h) ==> {
                &&& h.task == old(rt).tasks@.len()
                &&& h.state == old(rt).states@.len()
                &&& h.wf(*final(rt))
                &&& final(rt).tasks@ == old(rt).tasks@.push(
                    TaskRec {
                        queue: tq.index,
                        body: TaskBody::Once {
                            state: h.state,
                            action,
                            phase: OncePhase::Waiting,
                        },
                        woken: true,
                        cancelled: false,
                        done: false,
                        output: None,
                    },
                )
                &&& final(rt).states@[h.state as int].when == old(rt).now + when
            },
    {
        let ghost pre = *rt;
        let timer_id = register_timer(&mut rt.regs);
        proof {
            Runtime::lemma_register_fresh(pre, *rt);
            assert forall|i: int|
                0 <= i < rt.states@.len() implies (#[trigger] rt.states@[i].id) != timer_id by {
                assert(pre.slot_ok(i));
            }
        }
        let timer = Timer::from_id(rt, timer_id, when);
        let state = timer.state;
        if tq.index >= rt.queues {
            return Err(QueueNotFoundError { index: tq.index });
        }
        let task = rt.tasks.len();
        rt.tasks.push(
            TaskRec {
                queue: tq.index,
                body: TaskBody::Once { state, action, phase: OncePhase::Waiting },
                woken: true,
                cancelled: false,
                done: false,
                output: None,
            },
        );
        proof {
            assert(rt.task_ok(task as int));
            assert forall|s: int| #[trigger] rt.uses_slot(task as int, s) implies s
                == pre.states@.len() by {}
            assert forall|c: int| #[trigger] rt.uses_cell(task as int, c) implies pre.cell_free(
                c,
            ) by {}
            Runtime::lemma_spawn(pre, *rt);
        }
        Ok(TimerActionOnce { task, state })
    }

    /// Schedules `action` to run once, `when` ticks from now, on the
    /// default task queue, which always exists.
    pub fn do_in(rt: &mut Runtime, when: u64, action: OnceAction) -> (h: TimerActionOnce)
        requires
            old(rt).inv(),
            old(rt).now + when <= u64::MAX,
            (action.cell as int) < old(rt).cells@.len(),
            old(rt).cell_free(action.cell as int),
            old(rt).cells@[action.cell as int] == 0,
        ensures
            final(rt).inv(),
            final(rt).now == old(rt).now,
            final(rt).cells@ == old(rt).cells@,
            final(rt).queues == old(rt).queues,
            h.wf(*final(rt)),
            h.task == old(rt).tasks@.len(),
            h.state == old(rt).states@.len(),
            final(rt).tasks@ == old(rt).tasks@.push(
                TaskRec {
                    queue: 0,
                    body: TaskBody::Once { state: h.state, action, phase: OncePhase::Waiting },
                    woken: true,
                    cancelled: false,
                    done: false,
                    output: None,
                },
            ),
            final(rt).states@[h.state as int].when == old(rt).now + when,
    {
        let q = rt.default_queue();
        let r = Self::do_in_into(rt, when, action, q);
        match r {
            Ok(h) => h,
            Err(_) => {
                proof {
                    assert(false);
                }
                TimerActionOnce { task: 0, state: 0 }
            },
        }
    }

    /// Schedules `action` to run once at the absolute instant `when`, on
    /// the task queue `tq`.  An instant not in the future is floored to
    /// "now": the action fires as soon as possible rather than failing.
    pub fn do_at_into(rt: &mut Runtime, when: u64, action: OnceAction, tq: TaskQueueHandle) -> (r:
        Result<TimerActionOnce, QueueNotFoundError>)
        requires
            old(rt).inv(),
            (action.cell as int) < old(rt).cells@.len(),
            old(rt).cell_free(action.cell as int),
            old(rt).cells@[action.cell as int] == 0,
        ensures
            final(rt).inv(),
            final(rt).now == old(rt).now,
            final(rt).cells@ == old(rt).cells@,
            final(rt).queues == old(rt).queues,
            r is Err <==> (tq.index as int) >= old(rt).queues as int,
            r matches Err(e) ==> e.index == tq.index && final(rt).tasks@ == old(rt).tasks@,
            r matches Ok(h) ==> {
                &&& h.task == old(rt).tasks@.len()
                &&& h.state == old(rt).states@.len()
                &&& h.wf(*final(rt))
                &&& final(rt).tasks@ == old(rt).tasks@.push(
                    TaskRec {
                        queue: tq.index,
                        body: TaskBody::Once {
                            state: h.state,
                            action,
                            phase: OncePhase::Waiting,
                        },
                        woken: true,
                        cancelled: false,
                        done: false,
                        output: None,
                    },
                )
                &&& final(rt).states@[h.state as int].when as int == max_i(
                    old(rt).now as int,
                    when as int,
                )
            },
    {
        let dur: u64 = if when > rt.now {
            when - rt.now
        } else {
            0
        };
        Self::do_in_into(rt, dur, action, tq)
    }

    /// Schedules `action` to run once at the absolute instant `when`, on
    /// the default task queue; a past instant is floored to "now".
    pub fn do_at(rt: &mut Runtime, when: u64, action: OnceAction) -> (h: TimerActionOnce)
        requires
            old(rt).inv(),
            (action.cell as int) < old(rt).cells@.len(),
            old(rt).cell_free(action.cell as int),
            old(rt).cells@[action.cell as int] == 0,
        ensures
            final(rt).inv(),
            final(rt).now == old(rt).now,
            final(rt).cells@ == old(rt).cells@,
            final(rt).queues == old(rt).queues,
            h.wf(*final(rt)),
            h.task == old(rt).tasks@.len(),
            h.state == old(rt).states@.len(),
            final(rt).tasks@ == old(rt).tasks@.push(
                TaskRec {
                    queue: 0,
                    body: TaskBody::Once { state: h.state, action, phase: OncePhase::Waiting },
                    woken: true,
                    cancelled: false,
                    done: false,
                    output: None,
                },
            ),
            final(rt).states@[h.state as int].when as int == max_i(
                old(rt).now as int,
                when as int,
            ),
    {
        let dur: u64 = if when > rt.now {
            when - rt.now
        } else {
            0
        };
        Self::do_in(rt, dur, action)
    }

    /// Removes the timer's reactor registration for its id — idempotent,
    /// safe if the timer already fired or was already removed — and issues
    /// a cooperative cancellation request to the spawned task.  This is a
    /// request, not a guarantee: an action body that already started keeps
    /// running until its next suspension point; only there is the request
    /// observed.  Nothing else changes — not the task's body, not the
    /// shared state, not any cell.
    pub fn destroy(&self, rt: &mut Runtime)
        requires
            old(rt).inv(),
            self.wf(*old(rt)),
        ensures
            final(rt).inv(),
            self.wf(*final(rt)),
            final(rt).now == old(rt).now,
            final(rt).cells@ == old(rt).cells@,
            final(rt).queues == old(rt).queues,
            final(rt).states@ == old(rt).states@,
            final(rt).regs@ == regs_after_destroy(
                old(rt).regs@,
                old(rt).states@[self.state as int].id as int,
            ),
            final(rt).tasks@ == tasks_after_destroy(old(rt).tasks@, self.task as int),
    {
        let ghost pre = *rt;
        proof {
            assert(pre.task_ok(self.task as int));
            assert(pre.slot_ok(self.state as int));
        }
        let st = rt.states[self.state];
        remove_timer(&mut rt.regs, st.id);
        let mut k = rt.tasks[self.task];
        if !k.done {
            k.cancelled = true;
            k.woken = true;
            rt.tasks.set(self.task, k);
        }
        proof {
            assert(rt.tasks@ =~= tasks_after_destroy(pre.tasks@, self.task as int));
            assert forall|i: int|
                0 <= i < rt.states@.len() && ((i < pre.states@.len() && pre.uses_slot(
                    self.task as int,
                    i,
                )) || i >= pre.states@.len()) implies #[trigger] rt.slot_ok(i) by {
                assert(pre.slot_ok(i));
                if i != self.state as int {
                    assert(pre.states@[i].id != pre.states@[self.state as int].id);
                }
            }
            if let TaskBody::Once { state, action, phase } = pre.tasks@[self.task as int].body {
                if let OncePhase::Running { laps_left, lap, .. } = phase {
                    if let Some(l) = lap {
                        assert(pre.slot_ok(l as int));
                        assert(pre.states@[l as int].id != pre.states@[self.state as int].id);
                    }
                }
            }
            assert(rt.task_ok(self.task as int));
            Runtime::lemma_task_step(pre, *rt, self.task as int);
        }
    }

    /// Destroys the action and then waits for the spawned task to settle:
    /// the cancellation request is delivered before joining, so this always
    /// terminates.  If the task had already produced a value it keeps it;
    /// otherwise it resolves to no value.
    pub fn cancel(self, rt: &mut Runtime)
        requires
            old(rt).inv(),
            self.wf(*old(rt)),
        ensures
            final(rt).inv(),
            self.wf(*final(rt)),
            final(rt).tasks@[self.task as int].done,
            !old(rt).tasks@[self.task as int].done ==> final(rt).tasks@[self.task as int].output
                is None,
            old(rt).tasks@[self.task as int].done ==> final(rt).tasks@[self.task as int].output
                == old(rt).tasks@[self.task as int].output,
            final(rt).tasks@[self.task as int].cancelled == (old(rt).tasks@[self.task as int].cancelled
                || !old(rt).tasks@[self.task as int].done),
            final(rt).now == old(rt).now,
            final(rt).queues == old(rt).queues,
            final(rt).cells@.len() == old(rt).cells@.len(),
            final(rt).tasks@.len() == old(rt).tasks@.len(),
            final(rt).states@.len() >= old(rt).states@.len(),
            final(rt).regs@.len() >= old(rt).regs@.len(),
            forall|t: int|
                0 <= t < old(rt).tasks@.len() && t != self.task as int ==> anchored(
                    old(rt).tasks@[t],
                    #[trigger] final(rt).tasks@[t],
                ),
            forall|s: int|
                0 <= s < old(rt).states@.len() && #[trigger] old(rt).slot_free(s) ==> final(rt).slot_free(s) && final(rt).states@[s] == old(rt).states@[s],
            // destroy's effect stands: the shared timer is deregistered and
            // holds no capability once the task has settled
            final(rt).regs@[final(rt).states@[self.state as int].id as int] is None,
            final(rt).states@[self.state as int].waker is None,
    {
        let ghost pre = *rt;
        self.destroy(rt);
        let ghost mid = *rt;
        let _r = self.join(rt);
        proof {
            assert(pre.task_ok(self.task as int));
            assert(pre.slot_ok(self.state as int));
            assert(mid.regs@.len() == pre.regs@.len());
            assert forall|t: int|
                0 <= t < pre.tasks@.len() && t != self.task as int implies anchored(
                pre.tasks@[t],
                #[trigger] rt.tasks@[t],
            ) by {
                assert(mid.tasks@[t] == pre.tasks@[t]);
                assert(anchored(mid.tasks@[t], rt.tasks@[t]));
            }
            assert forall|s: int|
                0 <= s < pre.states@.len() && #[trigger] pre.slot_free(s) implies rt.slot_free(
                s,
            ) && rt.states@[s] == pre.states@[s] by {
                assert forall|t: int| 0 <= t < mid.tasks@.len() implies !mid.uses_slot(
                    t,
                    s,
                ) by {
                    assert(!pre.uses_slot(t, s));
                }
                assert(mid.slot_free(s));
                assert(mid.states@[s] == pre.states@[s]);
            }
            assert(rt.task_ok(self.task as int));
            assert(rt.slot_ok(self.state as int));
        }
    }

    /// Waits for the spawned task to resolve and yields the action's
    /// result: its value if the body ran to completion, or no value if the
    /// task was cancelled first.  The task must already be resolved or
    /// carry a cancellation request — driving time forward is the caller's
    /// business ([`Runtime::run_until`]).
    pub fn join(self, rt: &mut Runtime) -> (r: Option<u64>)
        requires
            old(rt).inv(),
            self.wf(*old(rt)),
            old(rt).tasks@[self.task as int].done || old(rt).tasks@[self.task as int].cancelled,
        ensures
            final(rt).inv(),
            final(rt).tasks@[self.task as int].done,
            r == final(rt).tasks@[self.task as int].output,
            old(rt).tasks@[self.task as int].done ==> r == old(rt).tasks@[self.task as int].output,
            old(rt).tasks@[self.task as int].cancelled ==> r is None,
            final(rt).tasks@[self.task as int].done && !final(rt).tasks@[self.task as int].cancelled
                ==> r == Some(self.action_of(*old(rt)).result),
            final(rt).tasks@[self.task as int].done && !final(rt).tasks@[self.task as int].cancelled
                ==> final(rt).cells@[self.action_of(*old(rt)).cell as int] as int == min_i(
                self.action_of(*old(rt)).start + self.action_of(*old(rt)).laps,
                u64::MAX as int,
            ),
            final(rt).now == old(rt).now,
            final(rt).queues == old(rt).queues,
            final(rt).cells@.len() == old(rt).cells@.len(),
            final(rt).tasks@.len() == old(rt).tasks@.len(),
            final(rt).states@.len() >= old(rt).states@.len(),
            final(rt).regs@.len() >= old(rt).regs@.len(),
            forall|t: int|
                0 <= t < old(rt).tasks@.len() ==> anchored(
                    old(rt).tasks@[t],
                    #[trigger] final(rt).tasks@[t],
                ),
            forall|t: int|
                0 <= t < old(rt).tasks@.len() ==> #[trigger] crate::runtime::once_steps_ok(
                    *old(rt),
                    *final(rt),
                    t,
                ),
            forall|s: int|
                0 <= s < old(rt).states@.len() && #[trigger] old(rt).slot_free(s) ==> final(rt).slot_free(s) && final(rt).states@[s] == old(rt).states@[s],
    {
        let ghost pre = *rt;
        rt.drain();
        let k = rt.tasks[self.task];
        proof {
            assert(anchored(pre.tasks@[self.task as int], rt.tasks@[self.task as int]));
            assert(rt.task_ok(self.task as int));
            if !k.done {
                assert(k.cancelled && !k.done ==> k.woken);
                assert(!rt.woken_at(self.task as int));
                assert(false);
            }
        }
        k.output
    }

    /// Re-bases the shared timer so it fires `dur` ticks from now: any
    /// pending registration is replaced by one under the new expiry with
    /// the same wakeup capability, so the same suspended task is the one
    /// woken — just at the new time.  This has an observable effect only
    /// while the spawned task is still suspended in the original timer
    /// await; once that await has resolved the shared state holds no
    /// capability, nothing re-registers, and the call mutates a state
    /// nobody is watching.
    pub fn rearm_in(&self, rt: &mut Runtime, dur: u64)
        requires
            old(rt).inv(),
            self.wf(*old(rt)),
            old(rt).now + dur <= u64::MAX,
        ensures
            final(rt).inv(),
            self.wf(*final(rt)),
            final(rt).now == old(rt).now,
            final(rt).cells@ == old(rt).cells@,
            final(rt).queues == old(rt).queues,
            final(rt).tasks@ == old(rt).tasks@,
            final(rt).states@.len() == old(rt).states@.len(),
            forall|s: int|
                0 <= s < old(rt).states@.len() && s != self.state as int ==> final(rt).states@[s]
                    == old(rt).states@[s],
            final(rt).states@[self.state as int].when == old(rt).now + dur,
            final(rt).states@[self.state as int].waker == old(rt).states@[self.state as int].waker,
            final(rt).states@[self.state as int].id == old(rt).states@[self.state as int].id,
            // while a waiter is held, its registration is re-based, same
            // capability; afterwards the registration table is untouched
            old(rt).states@[self.state as int].waker matches Some(w) ==> final(rt).regs@ == old(
                rt,
            ).regs@.update(
                old(rt).states@[self.state as int].id as int,
                Some(Reg { when: (old(rt).now + dur) as u64, waker: w }),
            ),
            old(rt).states@[self.state as int].waker is None ==> final(rt).regs@ == old(rt).regs@,
    {
        let ghost pre = *rt;
        proof {
            assert(pre.task_ok(self.task as int));
            assert(pre.slot_ok(self.state as int));
        }
        let mut st = rt.states[self.state];
        st.reset(&mut rt.regs, rt.now, dur);
        rt.states.set(self.state, st);
        proof {
            if pre.states@[self.state as int].waker is Some {
                assert(rt.regs@ =~= pre.regs@.update(
                    pre.states@[self.state as int].id as int,
                    Some(
                        Reg {
                            when: (pre.now + dur) as u64,
                            waker: pre.states@[self.state as int].waker->0,
                        },
                    ),
                ));
            } else {
                assert(rt.regs@ =~= pre.regs@);
            }
            assert forall|i: int|
                0 <= i < rt.states@.len() && ((i < pre.states@.len() && pre.uses_slot(
                    self.task as int,
                    i,
                )) || i >= pre.states@.len()) implies #[trigger] rt.slot_ok(i) by {
                assert(pre.slot_ok(i));
            }
            assert(rt.task_ok(self.task as int));
            Runtime::lemma_task_step(pre, *rt, self.task as int);
        }
    }

    /// Re-bases the shared timer so it fires at the absolute instant
    /// `when`; an instant not in the future is floored to "now", so a
    /// still-pending action fires as soon as possible.  Inert after the
    /// original await has resolved, exactly as [`TimerActionOnce::rearm_in`].
    pub fn rearm_at(&self, rt: &mut Runtime, when: u64)
        requires
            old(rt).inv(),
            self.wf(*old(rt)),
        ensures
            final(rt).inv(),
            self.wf(*final(rt)),
            final(rt).now == old(rt).now,
            final(rt).cells@ == old(rt).cells@,
            final(rt).queues == old(rt).queues,
            final(rt).tasks@ == old(rt).tasks@,
            final(rt).states@.len() == old(rt).states@.len(),
            forall|s: int|
                0 <= s < old(rt).states@.len() && s != self.state as int ==> final(rt).states@[s]
                    == old(rt).states@[s],
            final(rt).states@[self.state as int].when as int == max_i(
                old(rt).now as int,
                when as int,
            ),
            final(rt).states@[self.state as int].waker == old(rt).states@[self.state as int].waker,
            // while a waiter is held, its registration is re-based to the
            // floored instant, same capability — a past instant means the
            // timer is due at once
            old(rt).states@[self.state as int].waker matches Some(w) ==> final(rt).regs@ == old(rt).regs@.update(
                old(rt).states@[self.state as int].id as int,
                Some(Reg { when: max_i(old(rt).now as int, when as int) as u64, waker: w }),
            ),
            old(rt).states@[self.state as int].waker is None ==> final(rt).regs@ == old(rt).regs@,
    {
        let dur: u64 = if when > rt.now {
            when - rt.now
        } else {
            0
        };
        self.rearm_in(rt, dur);
    }
}

/// The larger of two mathematical integers.
pub open spec fn max_i(a: int, b: int) -> int {
    if a >= b {
        a
    } else {
        b
    }
}

/// What destroying does to the registration table: the pending entry for
/// the action's timer id is dropped, present or not.
pub open spec fn regs_after_destroy(regs: Seq<Option<Reg>>, sid: int) -> Seq<Option<Reg>> {
    regs.update(sid, None)
}

/// What destroying does to the task table: an unresolved task gets the
/// cancellation request and is scheduled to observe it; a resolved task is
/// left alone.
pub open spec fn tasks_after_destroy(tasks: Seq<TaskRec>, tid: int) -> Seq<TaskRec> {
    if tasks[tid].done {
        tasks
    } else {
        tasks.update(tid, TaskRec { cancelled: true, woken: true, ..tasks[tid] })
    }
}

/// A given id is registered in the reactor's pending set if and only if
/// the wakeup capability is held — at every rest point of the timer's
/// life.  While the task waits, both are present; once the await resolved
/// (and equally once the task is done), a completing poll removed the
/// registration and dropped the capability together.  The only other
/// state, capability held with the registration already fired, lasts
/// exactly until the woken task is polled, which the executor does before
/// the clock moves.
pub proof fn lemma_registered_iff_capability(rt: Runtime, h: TimerActionOnce)
    requires
        rt.inv(),
        h.wf(rt),
    ensures
        rt.tasks@[h.task as int].body matches TaskBody::Once { phase: OncePhase::Waiting, .. }
            && !rt.tasks@[h.task as int].done && !rt.tasks@[h.task as int].woken ==> rt.regs@[
            rt.states@[h.state as int].id as int
        ] is Some && rt.states@[h.state as int].waker is Some,
        rt.tasks@[h.task as int].body matches TaskBody::Once {
            phase: OncePhase::Running { .. },
            ..
        } ==> rt.regs@[rt.states@[h.state as int].id as int] is None && rt.states@[
            h.state as int
        ].waker is None,
        rt.tasks@[h.task as int].done ==> rt.regs@[rt.states@[h.state as int].id as int]
            is None && rt.states@[h.state as int].waker is None,
{
    assert(rt.task_ok(h.task as int));
    assert(rt.slot_ok(h.state as int));
}

/// While the spawned task still waits — the runtime quiescent, the task
/// alive — the action has not begun: its cell is untouched and the shared
/// timer's expiry lies strictly ahead of the clock.  In particular,
/// destroying before the timer fires means the action never ran.
pub proof fn lemma_once_not_started(rt: Runtime, h: TimerActionOnce)
    requires
        rt.inv(),
        rt.no_due(),
        rt.no_woken(),
        h.wf(rt),
        !rt.tasks@[h.task as int].done,
        rt.tasks@[h.task as int].body matches TaskBody::Once { phase: OncePhase::Waiting, .. },
    ensures
        rt.cells@[h.action_of(rt).cell as int] == 0,
        rt.states@[h.state as int].when > rt.now,
{
    assert(rt.task_ok(h.task as int));
    assert(rt.slot_ok(h.state as int));
    assert(!rt.woken_at(h.task as int));
    let sid = rt.states@[h.state as int].id as int;
    assert(rt.regs@[sid] is Some);
    assert(!rt.due_at(sid));
}

/// Once the clock has reached the shared timer's expiry — and no
/// cancellation request was made — the task has left the waiting phase:
/// the await resolved and the action body began.
pub proof fn lemma_once_started_by_expiry(rt: Runtime, h: TimerActionOnce)
    requires
        rt.inv(),
        rt.no_due(),
        rt.no_woken(),
        h.wf(rt),
        !rt.tasks@[h.task as int].cancelled,
        rt.states@[h.state as int].when <= rt.now,
    ensures
        rt.tasks@[h.task as int].body matches TaskBody::Once {
            phase: OncePhase::Running { .. },
            ..
        },
{
    assert(rt.task_ok(h.task as int));
    assert(rt.slot_ok(h.state as int));
    if let TaskBody::Once { state, action, phase } = rt.tasks@[h.task as int].body {
        if phase is Waiting {
            // a done task that was never cancelled has run its body, so it
            // cannot still be in the waiting phase
            assert(!rt.tasks@[h.task as int].done);
            assert(!rt.woken_at(h.task as int));
            let sid = rt.states@[h.state as int].id as int;
            assert(rt.regs@[sid] is Some);
            assert(rt.due_at(sid));
            assert(false);
        }
    }
}

/// Once the clock has passed the end of the action body's last wait, the
/// task has resolved: the body ran to completion exactly once, producing
/// its value, and its cell holds the start marker plus one per wait.
pub proof fn lemma_once_resolved_by(rt: Runtime, h: TimerActionOnce)
    requires
        rt.inv(),
        rt.no_due(),
        rt.no_woken(),
        h.wf(rt),
        !rt.tasks@[h.task as int].cancelled,
        rt.tasks@[h.task as int].body matches TaskBody::Once {
            phase: OncePhase::Running { .. },
            ..
        },
        (rt.tasks@[h.task as int].body matches TaskBody::Once {
            action,
            phase: OncePhase::Running { fired, .. },
            ..
        } ==> fired + action.laps * action.lap_wait <= rt.now),
    ensures
        rt.tasks@[h.task as int].done,
        rt.tasks@[h.task as int].output == Some(h.action_of(rt).result),
        rt.cells@[h.action_of(rt).cell as int] as int == min_i(
            h.action_of(rt).start + h.action_of(rt).laps,
            u64::MAX as int,
        ),
{
    assert(rt.task_ok(h.task as int));
    if let TaskBody::Once { state, action, phase } = rt.tasks@[h.task as int].body {
        if let OncePhase::Running { laps_left, lap, fired } = phase {
            if !rt.tasks@[h.task as int].done {
                // still mid-run: the pending wait would have to expire
                // strictly in the future, yet the whole schedule has passed
                assert(lap is Some);
                let l = lap->0;
                assert(rt.slot_ok(l as int));
                assert(laps_left >= 1);
                assert((action.laps - laps_left + 1) as int * (action.lap_wait as int)
                    <= (action.laps as int) * (action.lap_wait as int)) by (nonlinear_arith)
                    requires
                        1 <= laps_left <= action.laps,
                ;
                assert(rt.states@[l as int].when <= rt.now);
                assert(!rt.woken_at(h.task as int));
                let lid = rt.states@[l as int].id as int;
                assert(rt.regs@[lid] is Some);
                assert(rt.due_at(lid));
                assert(false);
            }
        }
    }
}

/// While the body is mid-run, the clock pins its progress exactly: the
/// completed waits end at or before now, the pending one ends strictly
/// after it, and the cell counts the start marker plus the completed
/// waits.  Destroying at that moment freezes exactly this state.
pub proof fn lemma_once_progress_tracks_clock(rt: Runtime, h: TimerActionOnce)
    requires
        rt.inv(),
        rt.no_due(),
        rt.no_woken(),
        h.wf(rt),
        !rt.tasks@[h.task as int].done,
        !rt.tasks@[h.task as int].cancelled,
        rt.tasks@[h.task as int].body matches TaskBody::Once {
            phase: OncePhase::Running { .. },
            ..
        },
        (rt.tasks@[h.task as int].body matches TaskBody::Once {
            action,
            phase: OncePhase::Running { laps_left, fired, .. },
            ..
        } ==> fired + (action.laps - laps_left + 1) * action.lap_wait <= u64::MAX),
    ensures
        rt.tasks@[h.task as int].body matches TaskBody::Once {
            action,
            phase: OncePhase::Running { laps_left, fired, .. },
            ..
        } ==> fired + (action.laps - laps_left) * action.lap_wait <= rt.now < fired + (
        action.laps - laps_left + 1) * action.lap_wait && rt.cells@[action.cell as int] as int
            == min_i(action.start + action.laps - laps_left, u64::MAX as int),
{
    assert(rt.task_ok(h.task as int));
    if let TaskBody::Once { state, action, phase } = rt.tasks@[h.task as int].body {
        if let OncePhase::Running { laps_left, lap, fired } = phase {
            assert(lap is Some);
            let l = lap->0;
            assert(rt.slot_ok(l as int));
            assert(!rt.woken_at(h.task as int));
            let lid = rt.states@[l as int].id as int;
            assert(rt.regs@[lid] is Some);
            assert(!rt.due_at(lid));
            assert(rt.states@[l as int].when > rt.now);
        }
    }
}

/// While the action body is running — including after a cancellation
/// request arrived mid-run — the observable cell reads exactly the work
/// completed so far: the start value plus one per finished wait.  Since
/// [`TimerActionOnce::destroy`] changes no cell and no body, started work
/// is never undone by it, and no further wait is begun once the request is
/// observed.
pub proof fn lemma_started_work_visible(rt: Runtime, h: TimerActionOnce)
    requires
        rt.inv(),
        h.wf(rt),
    ensures
        rt.tasks@[h.task as int].body matches TaskBody::Once {
            action,
            phase: OncePhase::Running { laps_left, .. },
            ..
        } ==> rt.cells@[action.cell as int] as int == min_i(
            action.start + action.laps - laps_left,
            u64::MAX as int,
        ),
{
    assert(rt.task_ok(h.task as int));
}

/// Rearming after the timer has fired is inert.  Once the spawned task
/// has moved past its await — the action body is running, or ran — the
/// shared timer state holds no wakeup capability; by
/// [`TimerActionOnce::rearm_in`]'s contract a rearm then leaves the
/// registration table and every task untouched, so it cannot affect the
/// action's timing: it re-bases an expiry nobody is watching.
pub proof fn lemma_rearm_inert_after_fire(rt: Runtime, h: TimerActionOnce)
    requires
        rt.inv(),
        h.wf(rt),
        rt.tasks@[h.task as int].body matches TaskBody::Once {
            phase: OncePhase::Running { .. },
            ..
        },
    ensures
        rt.states@[h.state as int].waker is None,
{
    assert(rt.task_ok(h.task as int));
}

/// Destroying is idempotent: destroying twice leaves the registration
/// table and the task table exactly as destroying once does, whether the
/// action had already completed naturally or not.  It is safe any number
/// of times.
pub proof fn lemma_destroy_idempotent(
    regs: Seq<Option<Reg>>,
    tasks: Seq<TaskRec>,
    sid: int,
    tid: int,
)
    requires
        0 <= sid < regs.len(),
        0 <= tid < tasks.len(),
    ensures
        regs_after_destroy(regs_after_destroy(regs, sid), sid) =~= regs_after_destroy(regs, sid),
        tasks_after_destroy(tasks_after_destroy(tasks, tid), tid) =~= tasks_after_destroy(
            tasks,
            tid,
        ),
{
    let t1 = tasks_after_destroy(tasks, tid);
    if !tasks[tid].done {
        assert(t1[tid].done == tasks[tid].done);
        assert(tasks_after_destroy(t1, tid) =~= t1);
    }
}

} // verus!
