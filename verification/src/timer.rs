//! A timer that expires after a duration of time.
//!
//! Timers are single-shot awaitables that produce the instant at which they
//! fired.  Awaiting a timer blocks the current task; for running an action
//! in the background after a delay, see [`crate::once::TimerActionOnce`].

use vstd::prelude::*;

use crate::runtime::{
    insert_timer, lemma_free_slot_update, lemma_prefix_extension, register_timer, remove_timer,
    Reg, Runtime, Waker,
};

verus! {

/// The shared mutable record backing a timer: registration id, optional
/// wakeup capability, absolute expiry.
#[derive(Clone, Copy, Debug)]
pub struct Inner {
    /// Registration id allocated by the reactor; an index into its table.
    pub id: usize,
    /// Wakeup capability: present exactly while a poll left the timer
    /// suspended (installed on registration, taken on release).
    pub waker: Option<Waker>,
    /// The instant after which the timer is eligible to fire.
    pub when: u64,
}

impl Inner {
    /// Re-base the expiry.  Any existing registration is removed before the
    /// new expiry takes effect, and a registration is installed again only
    /// if a wakeup capability is currently held — the same capability, so
    /// re-basing changes *when* the waiter is woken, never *which* waiter.
    pub(crate) fn reset(&mut self, regs: &mut Vec<Option<Reg>>, now: u64, dur: u64)
        requires
            (old(self).id as int) < old(regs)@.len(),
            now + dur <= u64::MAX,
        ensures
            final(self).id == old(self).id,
            final(self).waker == old(self).waker,
            final(self).when == now + dur,
            final(regs)@.len() == old(regs)@.len(),
            forall|j: int|
                0 <= j < old(regs)@.len() && j != old(self).id as int ==> final(regs)@[j] == old(regs)@[j],
            old(self).waker matches Some(w) ==> final(regs)@[old(self).id as int] == Some(
                Reg { when: (now + dur) as u64, waker: w },
            ),
            old(self).waker is None ==> final(regs)@[old(self).id as int] == old(regs)@[old(self).id as int],
    {
        if self.waker.is_some() {
            // deregister first: no two live registrations for one id
            remove_timer(regs, self.id);
        }
        self.when = now + dur;
        if let Some(w) = self.waker {
            // re-register under the new expiry with the same capability
            insert_timer(regs, self.id, self.when, w);
        }
    }

    /// One step of the single-shot poll protocol: if the expiry has passed,
    /// deregister (idempotently — safe even if already removed), drop the
    /// wakeup capability — a capability is held exactly while a
    /// registration is pending — and complete with the expiry instant;
    /// otherwise register under the given capability, store it, and stay
    /// suspended.
    pub(crate) fn poll(&mut self, regs: &mut Vec<Option<Reg>>, now: u64, waker: Waker) -> (r:
        Option<u64>)
        requires
            (old(self).id as int) < old(regs)@.len(),
        ensures
            final(self).id == old(self).id,
            final(self).when == old(self).when,
            final(regs)@.len() == old(regs)@.len(),
            forall|j: int|
                0 <= j < old(regs)@.len() && j != old(self).id as int ==> final(regs)@[j] == old(regs)@[j],
            now >= old(self).when ==> {
                &&& r == Some(old(self).when)
                &&& final(self).waker is None
                &&& final(regs)@[old(self).id as int] is None
            },
            now < old(self).when ==> {
                &&& r is None
                &&& final(self).waker == Some(waker)
                &&& final(regs)@[old(self).id as int] == Some(
                    Reg { when: old(self).when, waker },
                )
            },
    {
        if now >= self.when {
            remove_timer(regs, self.id);
            self.waker = None;
            Some(self.when)
        } else {
            insert_timer(regs, self.id, self.when, waker);
            self.waker = Some(waker);
            None
        }
    }

    /// What destruction does: if a wakeup capability is still held, take it
    /// and remove the registration; otherwise nothing.  No reactor-side
    /// entry outlives its owning timer.
    pub(crate) fn release(&mut self, regs: &mut Vec<Option<Reg>>)
        requires
            (old(self).id as int) < old(regs)@.len(),
        ensures
            final(self).id == old(self).id,
            final(self).when == old(self).when,
            final(self).waker is None,
            final(regs)@.len() == old(regs)@.len(),
            forall|j: int|
                0 <= j < old(regs)@.len() && j != old(self).id as int ==> final(regs)@[j] == old(regs)@[j],
            old(self).waker is Some ==> final(regs)@[old(self).id as int] is None,
            old(self).waker is None ==> final(regs)@[old(self).id as int] == old(regs)@[old(self).id as int],
    {
        if self.waker.is_some() {
            self.waker = None;
            remove_timer(regs, self.id);
        }
    }
}

/// A single-shot timer: an awaitable that completes no earlier than its
/// expiry and produces the expiry instant.
///
/// The value is a handle to a shared timer state owned by the runtime
/// model; going out of use is explicit here, through [`Timer::release`].
#[derive(Debug)]
pub struct Timer {
    /// Index of the backing state in the runtime's arena.
    pub state: usize,
}

impl Timer {
    /// The timer's backing state is live and no spawned task holds it.
    pub open spec fn wf(self, rt: Runtime) -> bool {
        &&& (self.state as int) < rt.states@.len()
        &&& rt.slot_free(self.state as int)
    }

    /// The timer's current expiry.
    pub open spec fn when(self, rt: Runtime) -> u64 {
        rt.states@[self.state as int].when
    }

    /// Creates a timer that expires after the given duration of time: a
    /// fresh id is allocated from the reactor, the expiry is `now + dur`,
    /// and no wakeup capability is held yet.
    pub fn new(rt: &mut Runtime, dur: u64) -> (t: Timer)
        requires
            old(rt).inv(),
            old(rt).now + dur <= u64::MAX,
        ensures
            final(rt).inv(),
            t.wf(*final(rt)),
            t.state == old(rt).states@.len(),
            final(rt).states@ == old(rt).states@.push(
                Inner {
                    id: old(rt).regs@.len() as usize,
                    waker: None,
                    when: (old(rt).now + dur) as u64,
                },
            ),
            final(rt).regs@ == old(rt).regs@.push(None),
            final(rt).now == old(rt).now,
            final(rt).tasks@ == old(rt).tasks@,
            final(rt).cells@ == old(rt).cells@,
            final(rt).queues == old(rt).queues,
            t.when(*final(rt)) == old(rt).now + dur,
    {
        let id = register_timer(&mut rt.regs);
        let t = Timer { state: rt.states.len() };
        rt.states.push(Inner { id, waker: None, when: rt.now + dur });
        proof {
            assert forall|i: int| 0 <= i < old(rt).states@.len() implies (#[trigger] old(
            rt).states@[i].id) != id by {
                assert(old(rt).slot_ok(i));
            }
            Self::lemma_fresh_slot(*old(rt), *rt);
        }
        t
    }

    /// Creates a timer over a caller-supplied id instead of a fresh one.
    /// Useful for repeat timers that keep a constant id; the id must not be
    /// held by any other timer state nor have a pending registration.
    pub(crate) fn from_id(rt: &mut Runtime, id: usize, dur: u64) -> (t: Timer)
        requires
            old(rt).inv(),
            old(rt).now + dur <= u64::MAX,
            (id as int) < old(rt).regs@.len(),
            old(rt).regs@[id as int] is None,
            forall|i: int| 0 <= i < old(rt).states@.len() ==> (#[trigger] old(rt).states@[i].id)
                != id,
        ensures
            final(rt).inv(),
            t.wf(*final(rt)),
            t.state == old(rt).states@.len(),
            final(rt).states@ == old(rt).states@.push(
                Inner { id, waker: None, when: (old(rt).now + dur) as u64 },
            ),
            final(rt).regs@ == old(rt).regs@,
            final(rt).now == old(rt).now,
            final(rt).tasks@ == old(rt).tasks@,
            final(rt).cells@ == old(rt).cells@,
            final(rt).queues == old(rt).queues,
            t.when(*final(rt)) == old(rt).now + dur,
    {
        let t = Timer { state: rt.states.len() };
        rt.states.push(Inner { id, waker: None, when: rt.now + dur });
        proof {
            Self::lemma_fresh_slot(*old(rt), *rt);
        }
        t
    }

    /// A runtime that only gained one fresh, unregistered, waker-less slot
    /// (and possibly one fresh table entry) still satisfies the invariant,
    /// and the new slot is free.
    pub(crate) proof fn lemma_fresh_slot(pre: Runtime, post: Runtime)
        requires
            pre.inv(),
            post.queues == pre.queues,
            post.now == pre.now,
            post.cells@ == pre.cells@,
            post.tasks@ == pre.tasks@,
            post.regs@.len() >= pre.regs@.len(),
            forall|j: int| 0 <= j < pre.regs@.len() ==> post.regs@[j] == pre.regs@[j],
            forall|j: int|
                pre.regs@.len() <= j < post.regs@.len() ==> #[trigger] post.regs@[j] is None,
            post.states@.len() == pre.states@.len() + 1,
            forall|i: int| 0 <= i < pre.states@.len() ==> post.states@[i] == pre.states@[i],
            (post.states@[pre.states@.len() as int].id as int) < post.regs@.len(),
            post.regs@[post.states@[pre.states@.len() as int].id as int] is None,
            post.states@[pre.states@.len() as int].waker is None,
            forall|i: int|
                0 <= i < pre.states@.len() ==> (#[trigger] pre.states@[i].id) != post.states@[
                    pre.states@.len() as int
                ].id,
        ensures
            post.inv(),
            post.slot_free(pre.states@.len() as int),
    {
        let n = pre.states@.len() as int;
        lemma_prefix_extension(pre, post);
        assert(post.slot_ok(n));
        assert forall|i: int, j: int|
            0 <= i < post.states@.len() && 0 <= j < post.states@.len() && i != j implies post.states@[
        i].id != post.states@[j].id by {
            if i < n && j < n {
                assert(pre.states@[i].id != pre.states@[j].id);
            }
        }
        assert forall|id: int|
            0 <= id < post.regs@.len() && #[trigger] post.regs@[id] is Some implies (post.regs@[
        id]->0.waker.task matches Some(tk) ==> tk < post.tasks@.len()) by {
            if id < pre.regs@.len() {
                assert(post.regs@[id] == pre.regs@[id]);
            }
        }
        assert forall|t: int| 0 <= t < post.tasks@.len() implies !post.uses_slot(t, n) by {
            assert(pre.task_ok(t));
        }
        assert forall|t1: int, t2: int, c: int|
            #![trigger post.uses_cell(t1, c), post.uses_cell(t2, c)]
            0 <= t1 < post.tasks@.len() && 0 <= t2 < post.tasks@.len() && t1 != t2 implies !(
        post.uses_cell(t1, c) && post.uses_cell(t2, c)) by {
            assert(!(pre.uses_cell(t1, c) && pre.uses_cell(t2, c)));
        }
    }

    /// Resets the timer to expire after the new duration of time.
    ///
    /// Unlike constructing a new timer, resetting keeps the wakeup
    /// capability of the task that is polling the timer: if one is held,
    /// the registration is removed and re-installed under `now + dur` with
    /// that same capability, so the same waiter is woken at the new time.
    pub fn reset(&mut self, rt: &mut Runtime, dur: u64)
        requires
            old(rt).inv(),
            old(self).wf(*old(rt)),
            old(rt).now + dur <= u64::MAX,
        ensures
            *final(self) == *old(self),
            final(rt).inv(),
            final(self).wf(*final(rt)),
            final(rt).states@[old(self).state as int].when == old(rt).now + dur,
            final(rt).states@[old(self).state as int].waker == old(rt).states@[old(self).state as int].waker,
            final(rt).states@[old(self).state as int].id == old(rt).states@[old(self).state as int].id,
            final(rt).states@.len() == old(rt).states@.len(),
            forall|k: int|
                0 <= k < old(rt).states@.len() && k != old(self).state as int ==> final(rt).states@[k] == old(rt).states@[k],
            final(rt).regs@.len() == old(rt).regs@.len(),
            forall|j: int|
                0 <= j < old(rt).regs@.len() && j != old(rt).states@[old(self).state as int].id
                    as int ==> final(rt).regs@[j] == old(rt).regs@[j],
            old(rt).states@[old(self).state as int].waker matches Some(w) ==> final(rt).regs@[old(rt).states@[old(self).state as int].id as int] == Some(
                Reg { when: (old(rt).now + dur) as u64, waker: w },
            ),
            old(rt).states@[old(self).state as int].waker is None ==> final(rt).regs@ == old(rt).regs@,
            final(rt).now == old(rt).now,
            final(rt).tasks@ == old(rt).tasks@,
            final(rt).cells@ == old(rt).cells@,
            final(rt).queues == old(rt).queues,
    {
        let ghost pre = *rt;
        let mut st = rt.states[self.state];
        proof {
            assert(pre.slot_ok(self.state as int));
        }
        st.reset(&mut rt.regs, rt.now, dur);
        rt.states.set(self.state, st);
        proof {
            if pre.states@[self.state as int].waker is None {
                assert(rt.regs@ =~= pre.regs@);
            }
            assert(rt.slot_ok(self.state as int));
            lemma_free_slot_update(pre, *rt, self.state as int);
        }
    }

    /// One poll of the timer, as the runtime's executor would perform it,
    /// under the given wakeup capability.  Completes — with the expiry
    /// instant — only once `now` has reached the expiry; otherwise the
    /// timer registers itself and stays pending.
    pub fn poll(&mut self, rt: &mut Runtime, waker: Waker) -> (r: Option<u64>)
        requires
            old(rt).inv(),
            old(self).wf(*old(rt)),
            waker.task matches Some(tk) ==> tk < old(rt).tasks@.len(),
        ensures
            *final(self) == *old(self),
            final(rt).inv(),
            final(self).wf(*final(rt)),
            final(rt).states@.len() == old(rt).states@.len(),
            forall|k: int|
                0 <= k < old(rt).states@.len() && k != old(self).state as int ==> final(rt).states@[k] == old(rt).states@[k],
            final(rt).states@[old(self).state as int].when == old(rt).states@[old(self).state as int].when,
            final(rt).states@[old(self).state as int].id == old(rt).states@[old(self).state as int].id,
            final(rt).regs@.len() == old(rt).regs@.len(),
            forall|j: int|
                0 <= j < old(rt).regs@.len() && j != old(rt).states@[old(self).state as int].id
                    as int ==> final(rt).regs@[j] == old(rt).regs@[j],
            old(rt).now >= old(rt).states@[old(self).state as int].when ==> {
                &&& r == Some(old(rt).states@[old(self).state as int].when)
                &&& final(rt).regs@[old(rt).states@[old(self).state as int].id as int] is None
                &&& final(rt).states@[old(self).state as int].waker is None
            },
            old(rt).now < old(rt).states@[old(self).state as int].when ==> {
                &&& r is None
                &&& final(rt).states@[old(self).state as int].waker == Some(waker)
                &&& final(rt).regs@[old(rt).states@[old(self).state as int].id as int] == Some(
                    Reg { when: old(rt).states@[old(self).state as int].when, waker },
                )
            },
            final(rt).now == old(rt).now,
            final(rt).tasks@ == old(rt).tasks@,
            final(rt).cells@ == old(rt).cells@,
            final(rt).queues == old(rt).queues,
    {
        let ghost pre = *rt;
        let mut st = rt.states[self.state];
        proof {
            assert(pre.slot_ok(self.state as int));
        }
        let r = st.poll(&mut rt.regs, rt.now, waker);
        rt.states.set(self.state, st);
        proof {
            assert(rt.slot_ok(self.state as int));
            lemma_free_slot_update(pre, *rt, self.state as int);
        }
        r
    }

    /// Awaits the timer in isolation: polls it, drives the runtime — firing
    /// other due timers and letting their tasks run — until the expiry has
    /// passed, then completes with the expiry instant and releases the
    /// timer.  Completion never comes early: afterwards the clock has
    /// reached the expiry the timer had when the wait began.
    pub fn wait(self, rt: &mut Runtime) -> (fired: u64)
        requires
            old(rt).inv(),
            self.wf(*old(rt)),
            old(rt).states@[self.state as int].when < u64::MAX,
        ensures
            final(rt).inv(),
            fired == old(rt).states@[self.state as int].when,
            final(rt).now >= fired,
            final(rt).now == if old(rt).now >= fired {
                old(rt).now
            } else {
                fired
            },
            final(rt).tasks@.len() == old(rt).tasks@.len(),
            final(rt).cells@.len() == old(rt).cells@.len(),
            final(rt).queues == old(rt).queues,
            final(rt).no_due(),
            final(rt).no_woken(),
    {
        let mut me = self;
        let w = Waker { task: None };
        let r1 = me.poll(rt, w);
        if let Some(v) = r1 {
            me.release(rt);
            rt.drain();
            v
        } else {
            let ghost pre2 = *rt;
            let when = rt.states[me.state].when;
            rt.run_until(when);
            proof {
                assert(pre2.slot_free(me.state as int));
            }
            let ghost mid = *rt;
            let r2 = me.poll(rt, w);
            if let Some(v) = r2 {
                me.release(rt);
                proof {
                    // completing removed the last entry this wait touched;
                    // everything else was already quiescent
                    assert forall|j: int| !rt.due_at(j) by {
                        if j != mid.states@[me.state as int].id as int {
                            assert(!mid.due_at(j));
                        }
                    }
                    assert forall|t: int| !rt.woken_at(t) by {
                        assert(!mid.woken_at(t));
                    }
                }
                v
            } else {
                proof {
                    assert(false);
                }
                0
            }
        }
    }

    /// Releases the timer, as dropping it does: if a wakeup capability is
    /// still held (the timer is still pending), its registration is
    /// removed; otherwise this is a no-op.
    pub fn release(self, rt: &mut Runtime)
        requires
            old(rt).inv(),
            self.wf(*old(rt)),
        ensures
            final(rt).inv(),
            final(rt).states@.len() == old(rt).states@.len(),
            forall|k: int|
                0 <= k < old(rt).states@.len() && k != self.state as int ==> final(rt).states@[k]
                    == old(rt).states@[k],
            final(rt).states@[self.state as int].waker is None,
            final(rt).states@[self.state as int].when == old(rt).states@[self.state as int].when,
            final(rt).states@[self.state as int].id == old(rt).states@[self.state as int].id,
            final(rt).regs@.len() == old(rt).regs@.len(),
            forall|j: int|
                0 <= j < old(rt).regs@.len() && j != old(rt).states@[self.state as int].id as int
                    ==> final(rt).regs@[j] == old(rt).regs@[j],
            old(rt).states@[self.state as int].waker is Some ==> final(rt).regs@[old(rt).states@[self.state as int].id as int] is None,
            old(rt).states@[self.state as int].waker is None ==> final(rt).regs@[old(rt).states@[self.state as int].id as int] == old(rt).regs@[old(rt).states@[self.state as int].id as int],
            final(rt).now == old(rt).now,
            final(rt).tasks@ == old(rt).tasks@,
            final(rt).cells@ == old(rt).cells@,
            final(rt).queues == old(rt).queues,
    {
        let ghost pre = *rt;
        let mut st = rt.states[self.state];
        proof {
            assert(pre.slot_ok(self.state as int));
        }
        st.release(&mut rt.regs);
        rt.states.set(self.state, st);
        proof {
            assert(rt.slot_ok(self.state as int));
            lemma_free_slot_update(pre, *rt, self.state as int);
        }
    }
}

} // verus!
