//! Fire an action repeatedly, asking a generator for each next delay.
//!
//! A [`TimerActionRepeat`] spawns a loop task: it invokes the generator,
//! and if the answer is "run again after d", awaits a timer built from one
//! reused registration id and that delay, then repeats; if the answer is
//! "stop", the loop ends.  The handle that remains with the caller can
//! cancel the loop or wait for it to end.

use vstd::prelude::*;

use crate::once::{regs_after_destroy, tasks_after_destroy};
use crate::runtime::{
    anchored, min_i, register_timer, remove_timer, QueueNotFoundError, Runtime, TaskBody,
    TaskQueueHandle, TaskRec,
};
use crate::timer::{Inner, Timer};

verus! {

/// The caller-supplied generator of a [`TimerActionRepeat`], written as
/// explicit data so that its decisions are visible to the scheduler model.
///
/// Each invocation increments the shared cell `cell` (the observable
/// invocation counter).  If `stop_at` is `Some(n)`, the `n`-th invocation
/// answers "stop" and the loop task ends; every earlier invocation — and
/// every invocation when `stop_at` is `None` — answers "run again after
/// `period` ticks".
#[derive(Clone, Copy, Debug)]
pub struct RepeatGenerator {
    /// Index of the runtime cell incremented on every invocation.
    pub cell: usize,
    /// Delay returned while the generator keeps going; at least one tick.
    pub period: u64,
    /// Invocation at which the generator answers "stop", if any.
    pub stop_at: Option<u64>,
}

/// Fires an action at generator-chosen intervals, in the background,
/// reusing one timer id across the whole sequence.
#[derive(Clone, Copy, Debug)]
pub struct TimerActionRepeat {
    /// Index of the spawned loop task.
    pub task: usize,
    /// The timer state — and with it the one reused registration id —
    /// threaded through every iteration of the loop.
    pub slot: usize,
}

impl TimerActionRepeat {
    /// The handle names a live repeat task, and `slot` is its reused timer
    /// state.
    pub open spec fn wf(self, rt: Runtime) -> bool {
        &&& (self.task as int) < rt.tasks@.len()
        &&& (rt.tasks@[self.task as int].body matches TaskBody::Repeat { slot, .. } && slot
            == self.slot)
    }

    /// Spawns the repeating loop driven by `gen` into the task queue `tq`,
    /// allocating the one timer id the loop will reuse.  The generator is
    /// first invoked as soon as the loop task runs.  Fails — synchronously,
    /// never later — with [`QueueNotFoundError`] exactly when `tq` is not a
    /// live queue.
    pub fn repeat_into(rt: &mut Runtime, gen: RepeatGenerator, tq: TaskQueueHandle) -> (r: Result<
        TimerActionRepeat,
        QueueNotFoundError,
    >)
        requires
            old(rt).inv(),
            (gen.cell as int) < old(rt).cells@.len(),
            old(rt).cell_free(gen.cell as int),
            old(rt).cells@[gen.cell as int] == 0,
            gen.period >= 1,
            gen.stop_at matches Some(s) ==> s >= 1,
        ensures
            final(rt).inv(),
            final(rt).now == old(rt).now,
            final(rt).cells@ == old(rt).cells@,
            final(rt).queues == old(rt).queues,
            final(rt).regs@ == old(rt).regs@.push(None),
            final(rt).states@ == old(rt).states@.push(
                Inner { id: old(rt).regs@.len() as usize, waker: None, when: old(rt).now },
            ),
            r is Err <==> (tq.index as int) >= old(rt).queues as int,
            r matches Err(e) ==> e.index == tq.index && final(rt).tasks@ == old(rt).tasks@,
            r matches Ok(h) ==> {
                &&& h.task == old(rt).tasks@.len()
                &&& h.slot == old(rt).states@.len()
                &&& h.wf(*final(rt))
                &&& final(rt).tasks@ == old(rt).tasks@.push(
                    TaskRec {
                        queue: tq.index,
                        body: TaskBody::Repeat {
                            gen,
                            slot: h.slot,
                            count: 0,
                            born: old(rt).now,
                        },
                        woken: true,
                        cancelled: false,
                        done: false,
                        output: None,
                    },
                )
            },
    {
        let ghost pre = *rt;
        let timer_id = register_timer(&mut rt.regs);
        proof {
            Runtime::lemma_register_fresh(pre, *rt);
            assert forall|i: int|
                0 <= i < rt.states@.len() implies (#[trigger] rt.states@[i].id) != timer_id by {
                assert(pre.slot_ok(i));
            }
        }
        let timer = Timer::from_id(rt, timer_id, 0);
        let slot = timer.state;
        if tq.index >= rt.queues {
            return Err(QueueNotFoundError { index: tq.index });
        }
        let task = rt.tasks.len();
        rt.tasks.push(
            TaskRec {
                queue: tq.index,
                body: TaskBody::Repeat { gen, slot, count: 0, born: rt.now },
                woken: true,
                cancelled: false,
                done: false,
                output: None,
            },
        );
        proof {
            assert(rt.task_ok(task as int));
            assert forall|s: int| #[trigger] rt.uses_slot(task as int, s) implies s
                == pre.states@.len() by {}
            assert forall|c: int| #[trigger] rt.uses_cell(task as int, c) implies pre.cell_free(
                c,
            ) by {}
            Runtime::lemma_spawn(pre, *rt);
        }
        Ok(TimerActionRepeat { task, slot })
    }

    /// Spawns the repeating loop driven by `gen` on the default task
    /// queue, which always exists.
    pub fn repeat(rt: &mut Runtime, gen: RepeatGenerator) -> (h: TimerActionRepeat)
        requires
            old(rt).inv(),
            (gen.cell as int) < old(rt).cells@.len(),
            old(rt).cell_free(gen.cell as int),
            old(rt).cells@[gen.cell as int] == 0,
            gen.period >= 1,
            gen.stop_at matches Some(s) ==> s >= 1,
        ensures
            final(rt).inv(),
            final(rt).now == old(rt).now,
            final(rt).cells@ == old(rt).cells@,
            final(rt).queues == old(rt).queues,
            h.wf(*final(rt)),
            h.task == old(rt).tasks@.len(),
            h.slot == old(rt).states@.len(),
            final(rt).tasks@ == old(rt).tasks@.push(
                TaskRec {
                    queue: 0,
                    body: TaskBody::Repeat { gen, slot: h.slot, count: 0, born: old(rt).now },
                    woken: true,
                    cancelled: false,
                    done: false,
                    output: None,
                },
            ),
    {
        let q = rt.default_queue();
        let r = Self::repeat_into(rt, gen, q);
        match r {
            Ok(h) => h,
            Err(_) => {
                proof {
                    assert(false);
                }
                TimerActionRepeat { task: 0, slot: 0 }
            },
        }
    }

    /// Removes the reactor registration for the reused id — idempotent,
    /// safe whether or not the loop already ended — and issues a
    /// cooperative cancellation request to the loop task.  Best-effort, as
    /// for a once-action: a generator invocation that already began runs
    /// to completion, but no further iteration starts once the request is
    /// observed at the next suspension point.
    pub fn destroy(&self, rt: &mut Runtime)
        requires
            old(rt).inv(),
            self.wf(*old(rt)),
        ensures
            final(rt).inv(),
            self.wf(*final(rt)),
            final(rt).now == old(rt).now,
            final(rt).cells@ == old(rt).cells@,
            final(rt).queues == old(rt).queues,
            final(rt).states@ == old(rt).states@,
            final(rt).regs@ == regs_after_destroy(
                old(rt).regs@,
                old(rt).states@[self.slot as int].id as int,
            ),
            final(rt).tasks@ == tasks_after_destroy(old(rt).tasks@, self.task as int),
    {
        let ghost pre = *rt;
        proof {
            assert(pre.task_ok(self.task as int));
            assert(pre.slot_ok(self.slot as int));
        }
        let st = rt.states[self.slot];
        remove_timer(&mut rt.regs, st.id);
        let mut k = rt.tasks[self.task];
        if !k.done {
            k.cancelled = true;
            k.woken = true;
            rt.tasks.set(self.task, k);
        }
        proof {
            assert(rt.tasks@ =~= tasks_after_destroy(pre.tasks@, self.task as int));
            assert forall|i: int|
                0 <= i < rt.states@.len() && ((i < pre.states@.len() && pre.uses_slot(
                    self.task as int,
                    i,
                )) || i >= pre.states@.len()) implies #[trigger] rt.slot_ok(i) by {
                assert(pre.slot_ok(i));
                if i != self.slot as int {
                    assert(pre.states@[i].id != pre.states@[self.slot as int].id);
                }
            }
            assert(rt.task_ok(self.task as int));
            Runtime::lemma_task_step(pre, *rt, self.task as int);
        }
    }

    /// Destroys the loop and then waits for its task to settle; always
    /// terminates, since the cancellation request is delivered before
    /// joining.
    pub fn cancel(self, rt: &mut Runtime)
        requires
            old(rt).inv(),
            self.wf(*old(rt)),
        ensures
            final(rt).inv(),
            self.wf(*final(rt)),
            final(rt).tasks@[self.task as int].done,
            !old(rt).tasks@[self.task as int].done ==> final(rt).tasks@[self.task as int].output
                is None,
            old(rt).tasks@[self.task as int].done ==> final(rt).tasks@[self.task as int].output
                == old(rt).tasks@[self.task as int].output,
            final(rt).tasks@[self.task as int].cancelled == (old(rt).tasks@[self.task as int].cancelled
                || !old(rt).tasks@[self.task as int].done),
            final(rt).now == old(rt).now,
            final(rt).queues == old(rt).queues,
            final(rt).cells@.len() == old(rt).cells@.len(),
            final(rt).tasks@.len() == old(rt).tasks@.len(),
            final(rt).states@.len() >= old(rt).states@.len(),
            final(rt).regs@.len() >= old(rt).regs@.len(),
            forall|t: int|
                0 <= t < old(rt).tasks@.len() && t != self.task as int ==> anchored(
                    old(rt).tasks@[t],
                    #[trigger] final(rt).tasks@[t],
                ),
            forall|s: int|
                0 <= s < old(rt).states@.len() && #[trigger] old(rt).slot_free(s) ==> final(rt).slot_free(s) && final(rt).states@[s] == old(rt).states@[s],
            // destroy's effect stands: the reused id is deregistered and
            // holds no capability once the loop has settled
            final(rt).regs@[final(rt).states@[self.slot as int].id as int] is None,
            final(rt).states@[self.slot as int].waker is None,
    {
        let ghost pre = *rt;
        self.destroy(rt);
        let ghost mid = *rt;
        let _r = self.join(rt);
        proof {
            assert(pre.task_ok(self.task as int));
            assert(pre.slot_ok(self.slot as int));
            assert(mid.regs@.len() == pre.regs@.len());
            assert forall|t: int|
                0 <= t < pre.tasks@.len() && t != self.task as int implies anchored(
                pre.tasks@[t],
                #[trigger] rt.tasks@[t],
            ) by {
                assert(mid.tasks@[t] == pre.tasks@[t]);
                assert(anchored(mid.tasks@[t], rt.tasks@[t]));
            }
            assert forall|s: int|
                0 <= s < pre.states@.len() && #[trigger] pre.slot_free(s) implies rt.slot_free(
                s,
            ) && rt.states@[s] == pre.states@[s] by {
                assert forall|t: int| 0 <= t < mid.tasks@.len() implies !mid.uses_slot(
                    t,
                    s,
                ) by {
                    assert(!pre.uses_slot(t, s));
                }
                assert(mid.slot_free(s));
                assert(mid.states@[s] == pre.states@[s]);
            }
            assert(rt.task_ok(self.task as int));
            assert(rt.slot_ok(self.slot as int));
        }
    }

    /// Waits for the loop task to end and yields the completion marker if
    /// the generator itself answered "stop", or no value if the loop was
    /// cancelled before that.  The task must already be resolved or carry
    /// a cancellation request; driving time forward is the caller's
    /// business ([`Runtime::run_until`]).  When the marker comes back, the
    /// generator was invoked exactly its stopping number of times, and at
    /// least one period elapsed between consecutive invocations.
    pub fn join(self, rt: &mut Runtime) -> (r: Option<()>)
        requires
            old(rt).inv(),
            self.wf(*old(rt)),
            old(rt).tasks@[self.task as int].done || old(rt).tasks@[self.task as int].cancelled,
        ensures
            final(rt).inv(),
            final(rt).tasks@[self.task as int].done,
            r is Some <==> final(rt).tasks@[self.task as int].output is Some,
            old(rt).tasks@[self.task as int].done ==> final(rt).tasks@[self.task as int].output
                == old(rt).tasks@[self.task as int].output,
            old(rt).tasks@[self.task as int].cancelled ==> r is None,
            r is Some ==> !final(rt).tasks@[self.task as int].cancelled,
            r is Some ==> (final(rt).tasks@[self.task as int].body matches TaskBody::Repeat {
                gen,
                count,
                born,
                ..
            } && gen.stop_at == Some(count) && final(rt).cells@[gen.cell as int] == count
                && final(rt).now as int >= min_i(
                born + (count - 1) * gen.period,
                u64::MAX as int,
            )),
            final(rt).now == old(rt).now,
            final(rt).queues == old(rt).queues,
            final(rt).cells@.len() == old(rt).cells@.len(),
            final(rt).tasks@.len() == old(rt).tasks@.len(),
            final(rt).states@.len() >= old(rt).states@.len(),
            final(rt).regs@.len() >= old(rt).regs@.len(),
            forall|t: int|
                0 <= t < old(rt).tasks@.len() ==> anchored(
                    old(rt).tasks@[t],
                    #[trigger] final(rt).tasks@[t],
                ),
            forall|s: int|
                0 <= s < old(rt).states@.len() && #[trigger] old(rt).slot_free(s) ==> final(rt).slot_free(s) && final(rt).states@[s] == old(rt).states@[s],
    {
        let ghost pre = *rt;
        rt.drain();
        let k = rt.tasks[self.task];
        proof {
            assert(anchored(pre.tasks@[self.task as int], rt.tasks@[self.task as int]));
            assert(rt.task_ok(self.task as int));
            if !k.done {
                assert(k.cancelled && !k.done ==> k.woken);
                assert(!rt.woken_at(self.task as int));
                assert(false);
            }
        }
        match k.output {
            Some(_) => Some(()),
            None => None,
        }
    }
}

/// Between invocations, the loop's position is pinned by the clock alone.
/// When the runtime is quiescent and the loop — spawned at `born` with
/// period `p` — is alive and has been invoked `count` times, the clock
/// lies in `[born + (count-1)·p, born + count·p)`: one invocation per
/// period, never early, never skipped.
pub proof fn lemma_repeat_count_tracks_clock(rt: Runtime, h: TimerActionRepeat)
    requires
        rt.inv(),
        rt.no_due(),
        h.wf(rt),
        !rt.tasks@[h.task as int].done,
        !rt.tasks@[h.task as int].woken,
        !rt.tasks@[h.task as int].cancelled,
        (rt.tasks@[h.task as int].body matches TaskBody::Repeat { gen, count, born, .. }
            ==> born + count * gen.period <= u64::MAX),
    ensures
        rt.tasks@[h.task as int].body matches TaskBody::Repeat { gen, count, born, .. } ==> born
            + count * gen.period > rt.now >= born + count * gen.period - gen.period,
{
    assert(rt.task_ok(h.task as int));
    assert(rt.slot_ok(h.slot as int));
    if let TaskBody::Repeat { gen, slot, count, born } = rt.tasks@[h.task as int].body {
        let sid = rt.states@[slot as int].id as int;
        assert(rt.regs@[sid] is Some);
        assert(!rt.due_at(sid));
        assert(rt.states@[slot as int].when > rt.now);
    }
}

} // verus!
