//! The task runtime: which task runs next.
//!
//! Tasks run to completion. An interrupt or a spawn queues an invocation; the
//! runtime begins the queued invocation of highest priority as soon as that
//! priority is above the one in force, on top of whatever was running, and
//! goes back to what was running when the task completes. The caller carries
//! the actions out: it runs the task's entry procedure, resumes, or sleeps.

use vstd::prelude::*;
use crate::clock::{lemma_overflow_keeps_now, ClockView, MonotonicClock, Reading, WakeAction};
use crate::error::SpawnError;
use crate::lock::{is_ceiling, Guard, LockManager, ResourceId};
use crate::model::{
    lemma_abort_keeps_wf, lemma_clock_keeps_wf, lemma_dispatch_keeps_wf,
    lemma_idle_only_when_empty, lemma_lock_keeps_wf, lemma_release_keeps_wf,
    lemma_spawn_keeps_wf, lemma_timed_keeps_wf, lemma_unlock_keeps_wf, FrameView, RuntimeView,
};
use crate::queue::{
    earliest_timer, is_earliest, lemma_count_push, occupancy_of_queue, occupancy_of_timers,
    split_due, Invocation, Timed,
};
use crate::table::{DispatchTable, TaskId};
use crate::tick::Tick;

verus! {

/// What the processor does next.
#[derive(Clone, Copy, Debug, PartialEq, Eq)]
pub enum Action {
    /// Run this invocation's task now, on top of whatever was running.
    Run(Invocation),
    /// Nothing preempts: go on with the task that was running.
    Resume(TaskId),
    /// Nothing is running and nothing is queued: sleep until the next
    /// interrupt.
    Sleep,
}

/// What became of a hardware interrupt.
#[derive(Clone, Copy, Debug, PartialEq, Eq)]
pub enum InterruptOutcome {
    /// The bound task was queued.
    Latched(TaskId),
    /// The bound task was pending already; the source has one flag only.
    Coalesced(TaskId),
    /// No task is bound to the source.
    Unbound,
}

/// A task that has begun and not completed, with the token of its priority
/// scope.
struct Running {
    task: TaskId,
    guard: Guard,
}

/// The scheduler's state: the task set, the priority in force, the clock, and
/// the invocations that are queued or under way.
pub struct Runtime {
    table: DispatchTable,
    locks: LockManager,
    clock: MonotonicClock,
    pending: Vec<Invocation>,
    timers: Vec<Timed>,
    running: Vec<Running>,
}

impl View for Runtime {
    type V = RuntimeView;

    closed spec fn view(&self) -> RuntimeView {
        RuntimeView {
            table: self.table@,
            locks: self.locks@,
            clock: self.clock@,
            pending: self.pending@,
            timers: self.timers@,
            running: Seq::new(
                self.running.len() as nat,
                |i: int| FrameView { task: self.running[i].task, depth: self.running[i].guard@.depth },
            ),
        }
    }
}

impl Runtime {
    /// The tokens of the tasks under way belong to their scopes, and the
    /// table's lookup is in order.
    pub closed spec fn internal(&self) -> bool {
        &&& self.table.wf()
        &&& forall|i: int|
            0 <= i < self.running.len() ==> self.locks@.held((#[trigger] self.running[i]).guard@)
    }

    /// The runtime is one that `start` hands out and its operations lead
    /// to.
    pub open spec fn wf(&self) -> bool {
        self@.wf() && self.internal()
    }

    /// Sets the executive up and spawns the startup task, which is thereby
    /// the first thing to run: before it has run, no poll answers with sleep.
    /// `users` lists, for each shared resource, the tasks that lock it.
    pub fn start(
        table: DispatchTable,
        users: &Vec<Vec<TaskId>>,
        clock: MonotonicClock,
        startup: TaskId,
    ) -> (res: Result<Runtime, SpawnError>)
        requires
            table.wf(),
            clock.wf(),
            table@.has_task(startup as int),
            forall|r: int, i: int|
                0 <= r < users.len() && 0 <= i < users[r].len() ==> table@.has_task(
                    #[trigger] users[r][i] as int,
                ),
        ensures
            match res {
                Ok(runtime) => {
                    &&& table@.tasks[startup as int].spec_slots() > 0
                    &&& runtime.wf()
                    &&& runtime@.table == table@
                    &&& runtime@.clock == clock@
                    &&& runtime@.pending == seq![Invocation { task: startup, payload: None }]
                    &&& runtime@.timers.len() == 0
                    &&& runtime@.running.len() == 0
                    &&& runtime@.locks.effective == 0
                    &&& runtime@.locks.saved.len() == 0
                    &&& runtime@.locks.held.len() == 0
                    &&& runtime@.locks.ceilings.len() == users.len()
                    &&& forall|r: int|
                        0 <= r < users.len() ==> is_ceiling(
                            table@,
                            users[r]@,
                            #[trigger] runtime@.locks.ceilings[r],
                        )
                },
                Err(e) => {
                    &&& table@.tasks[startup as int].spec_slots() == 0
                    &&& e == (SpawnError::QueueFull { task: startup })
                },
            },
    {
        if table.decl(startup).slots() == 0 {
            return Err(SpawnError::QueueFull { task: startup });
        }
        let locks = LockManager::new(&table, users);
        let mut pending: Vec<Invocation> = Vec::new();
        pending.push(Invocation { task: startup, payload: None });
        let runtime = Runtime {
            table,
            locks,
            clock,
            pending,
            timers: Vec::new(),
            running: Vec::new(),
        };
        proof {
            let first = Invocation { task: startup, payload: None };
            assert(runtime@.pending =~= seq![first]);
            assert forall|task: TaskId| runtime@.table.has_task(task as int) implies #[trigger] runtime@.occupancy(
                task,
            ) <= runtime@.table.tasks[task as int].spec_slots() by {
                lemma_count_push(Seq::empty(), first, task);
                assert(Seq::<Invocation>::empty().push(first) =~= runtime@.pending);
            }
        }
        Ok(runtime)
    }

    /// The task set.
    pub fn table(&self) -> (table: &DispatchTable)
        requires
            self.wf(),
        ensures
            table.wf(),
            table@ == self@.table,
    {
        &self.table
    }

    /// The priority in force.
    pub fn effective(&self) -> (p: u8)
        ensures
            p == self@.effective(),
    {
        self.locks.effective()
    }

    /// The task that executes, if any.
    pub fn current(&self) -> (task: Option<TaskId>)
        ensures
            match task {
                Some(t) => self@.running.len() > 0 && t == self@.running.last().task,
                None => self@.running.len() == 0,
            },
    {
        let n: usize = self.running.len();
        if n == 0 {
            None
        } else {
            Some(self.running[n - 1].task)
        }
    }

    /// The number of invocations that are ready to run.
    pub fn pending_len(&self) -> (n: usize)
        ensures
            n == self@.pending.len(),
    {
        self.pending.len()
    }

    /// The ready invocation at position `i` in the order of arrival.
    pub fn pending_at(&self, i: usize) -> (invocation: Invocation)
        requires
            i < self@.pending.len(),
        ensures
            invocation == self@.pending[i as int],
    {
        self.pending[i]
    }

    /// The clock.
    pub fn clock(&self) -> (clock: &MonotonicClock)
        requires
            self.wf(),
        ensures
            clock.wf(),
            clock@ == self@.clock,
    {
        &self.clock
    }

    /// The lock manager, for reaching shared state with a guard.
    pub fn locks(&self) -> (locks: &LockManager)
        requires
            self.wf(),
        ensures
            locks.wf(),
            locks@ == self@.locks,
    {
        &self.locks
    }

    /// The number of shared resources.
    pub fn resources(&self) -> (n: usize)
        ensures
            n == self@.locks.ceilings.len(),
    {
        self.locks.resources()
    }

    /// The ceiling of a shared resource.
    pub fn ceiling(&self, resource: ResourceId) -> (c: u8)
        requires
            resource < self@.locks.ceilings.len(),
        ensures
            c == self@.locks.ceilings[resource as int],
    {
        self.locks.ceiling(resource)
    }

    /// Whether the executing task may lock `resource`.
    pub fn may_lock(&self, resource: ResourceId) -> (b: bool)
        requires
            self.wf(),
        ensures
            b == self@.may_lock(resource),
    {
        let n: usize = self.running.len();
        if n == 0 || resource >= self.locks.resources() {
            return false;
        }
        assert(self@.frame_ok(n - 1));
        self.table.priority_of(self.running[n - 1].task) <= self.locks.ceiling(resource)
    }

    /// Whether some task holds `resource` locked.
    pub fn is_locked(&self, resource: ResourceId) -> (b: bool)
        ensures
            b == self@.locks.is_locked(resource),
    {
        self.locks.is_locked(resource)
    }

    /// Whether `guard` belongs to the lock that was taken last, the only one
    /// that may be handed back next.
    pub fn is_innermost(&self, guard: &Guard) -> (b: bool)
        ensures
            b == self@.locks.innermost(guard@),
    {
        self.locks.is_innermost(guard)
    }

    /// The number of invocations that wait for their tick.
    pub fn timers_len(&self) -> (n: usize)
        ensures
            n == self@.timers.len(),
    {
        self.timers.len()
    }

    /// The number of locks that the executing task holds. The task may
    /// complete only when this is zero.
    pub fn locks_held(&self) -> (n: usize)
        requires
            self.wf(),
            self@.running.len() > 0,
        ensures
            n == self@.locks_held(),
    {
        let top: usize = self.running.len() - 1;
        assert(self@.frame_ok(top as int));
        assert(self.locks@.held(self.running[top as int].guard@));
        self.locks.depth() - self.depth_of(top) - 1
    }

    /// Whether every invocation slot of `task` is taken.
    pub fn is_full(&self, task: TaskId) -> (b: bool)
        requires
            self.wf(),
            self@.table.has_task(task as int),
        ensures
            b == self@.full(task),
    {
        let ready: usize = occupancy_of_queue(&self.pending, task);
        let waiting: usize = occupancy_of_timers(&self.timers, task);
        let slots: usize = self.table.decl(task).slots();
        ready >= slots || waiting >= slots - ready
    }

    /// Queues an invocation of `task`. When every slot of the task is taken
    /// the spawn is refused and nothing changes. A task that is bound to an
    /// interrupt source has one slot, which its interrupt flag takes too.
    pub fn spawn(&mut self, task: TaskId, payload: Option<u32>) -> (res: Result<(), SpawnError>)
        requires
            old(self).wf(),
            old(self)@.table.has_task(task as int),
        ensures
            final(self).wf(),
            match res {
                Ok(_) => {
                    &&& !old(self)@.full(task)
                    &&& final(self)@ == old(self)@.spawned(Invocation { task, payload })
                },
                Err(e) => {
                    &&& old(self)@.full(task)
                    &&& e == (SpawnError::QueueFull { task })
                    &&& final(self)@ == old(self)@
                },
            },
    {
        if self.is_full(task) {
            return Err(SpawnError::QueueFull { task });
        }
        let invocation = Invocation { task, payload };
        self.pending.push(invocation);
        proof {
            assert(self@.running =~= old(self)@.running);
            assert(self@ == old(self)@.spawned(invocation));
            lemma_spawn_keeps_wf(old(self)@, invocation);
        }
        Ok(())
    }

    /// Takes note of a hardware interrupt: queues the task bound to the
    /// source, unless it is pending already.
    pub fn interrupt(&mut self, source: u16) -> (outcome: InterruptOutcome)
        requires
            old(self).wf(),
        ensures
            final(self).wf(),
            match outcome {
                InterruptOutcome::Latched(task) => {
                    &&& old(self)@.table.is_bound(task as int, source)
                    &&& !old(self)@.full(task)
                    &&& final(self)@ == old(self)@.spawned(Invocation { task, payload: None })
                },
                InterruptOutcome::Coalesced(task) => {
                    &&& old(self)@.table.is_bound(task as int, source)
                    &&& old(self)@.full(task)
                    &&& final(self)@ == old(self)@
                },
                InterruptOutcome::Unbound => {
                    &&& !old(self)@.table.claimed(source)
                    &&& final(self)@ == old(self)@
                },
            },
    {
        match self.table.task_for_source(source) {
            Some(task) => {
                match self.spawn(task, None) {
                    Ok(_) => InterruptOutcome::Latched(task),
                    Err(_) => InterruptOutcome::Coalesced(task),
                }
            },
            None => InterruptOutcome::Unbound,
        }
    }

    /// Decides what the processor does next. The ready invocation of highest
    /// priority begins to run if its priority is above the one in force;
    /// among invocations of equal priority the one that arrived first is
    /// taken. Afterwards nothing that is ready is more urgent than what
    /// executes. The caller polls after every event and every completion.
    pub fn poll(&mut self) -> (action: Action)
        requires
            old(self).wf(),
        ensures
            final(self).wf(),
            final(self)@.settled(),
            match action {
                Action::Run(invocation) => exists|k: int|
                    {
                        &&& #[trigger] old(self)@.is_next(k)
                        &&& old(self)@.preempts(k)
                        &&& invocation == old(self)@.pending[k]
                        &&& final(self)@ == old(self)@.dispatched(k)
                    },
                Action::Resume(task) => {
                    &&& old(self)@.settled()
                    &&& old(self)@.running.len() > 0
                    &&& task == old(self)@.running.last().task
                    &&& final(self)@ == old(self)@
                },
                Action::Sleep => {
                    &&& old(self)@.pending.len() == 0
                    &&& old(self)@.running.len() == 0
                    &&& final(self)@ == old(self)@
                },
            },
    {
        let n: usize = self.pending.len();
        let mut best: usize = 0;
        let mut best_priority: u8 = 0;
        let mut i: usize = 0;
        while i < n
            invariant
                0 <= i <= n,
                n == self.pending.len(),
                self.wf(),
                i == 0 ==> best == 0 && best_priority == 0,
                i > 0 ==> best < i && best_priority == self@.priority(self.pending[best as int].task),
                forall|j: int|
                    0 <= j < i ==> self@.priority((#[trigger] self.pending[j]).task)
                        <= best_priority,
                forall|j: int|
                    0 <= j < best ==> self@.priority((#[trigger] self.pending[j]).task)
                        < best_priority,
            decreases n - i,
        {
            assert(self@.table.has_task(self@.pending[i as int].task as int));
            let p: u8 = self.table.priority_of(self.pending[i].task);
            if i == 0 || p > best_priority {
                best = i;
                best_priority = p;
            }
            i += 1;
        }
        if n > 0 && best_priority > self.locks.effective() {
            let ghost k = best as int;
            assert(old(self)@.is_next(k));
            let invocation = self.pending.remove(best);
            let guard = self.locks.raise(best_priority);
            self.running.push(Running { task: invocation.task, guard });
            proof {
                assert(self@.running =~= old(self)@.dispatched(k).running);
                assert(self@ == old(self)@.dispatched(k));
                lemma_dispatch_keeps_wf(old(self)@, k);
                assert forall|i: int| 0 <= i < self.running.len() implies self.locks@.held(
                    (#[trigger] self.running[i]).guard@,
                ) by {
                    if i < old(self).running.len() {
                        assert(old(self).locks@.held(old(self).running[i].guard@));
                    }
                }
            }
            Action::Run(invocation)
        } else {
            proof {
                if self@.running.len() == 0 {
                    lemma_idle_only_when_empty(self@);
                }
            }
            match self.current() {
                Some(task) => Action::Resume(task),
                None => Action::Sleep,
            }
        }
    }

    /// Ends the executing task and restores the priority that was in force
    /// when it began. The task that it had preempted, if any, executes again.
    /// A task cannot complete with a lock held: no lock outlives the
    /// invocation that took it.
    pub fn complete(&mut self) -> (task: TaskId)
        requires
            old(self).wf(),
            old(self)@.running.len() > 0,
            old(self)@.locks_held() == 0,
        ensures
            final(self).wf(),
            task == old(self)@.running.last().task,
            final(self)@ == old(self)@.completed(),
    {
        proof {
            lemma_abort_keeps_wf(old(self)@);
        }
        self.end_task()
    }

    /// Ends the executing task after a fault: the locks that it holds end
    /// with it, and the priority that was in force when it began is
    /// restored. The task that it had preempted, if any, executes again.
    pub fn abort(&mut self) -> (task: TaskId)
        requires
            old(self).wf(),
            old(self)@.running.len() > 0,
        ensures
            final(self).wf(),
            task == old(self)@.running.last().task,
            final(self)@ == old(self)@.aborted(),
            final(self)@.effective() == old(self)@.locks.saved[old(self)@.running.last().depth as int],
    {
        self.end_task()
    }

    /// Takes the executing task off the tasks under way and ends its scope
    /// with every lock within it.
    fn end_task(&mut self) -> (task: TaskId)
        requires
            old(self).wf(),
            old(self)@.running.len() > 0,
        ensures
            final(self).wf(),
            task == old(self)@.running.last().task,
            final(self)@ == old(self)@.aborted(),
            final(self)@.effective() == old(self)@.locks.saved[old(self)@.running.last().depth as int],
    {
        let ghost top = self.running.len() - 1;
        assert(self@.frame_ok(top));
        assert(self.locks@.held(self.running[top].guard@));
        let done = self.running.pop().unwrap();
        self.locks.unwind(done.guard);
        proof {
            assert(self@.running =~= old(self)@.aborted().running);
            assert(self@ == old(self)@.aborted());
            lemma_abort_keeps_wf(old(self)@);
            assert forall|i: int| 0 <= i < self.running.len() implies self.locks@.held(
                (#[trigger] self.running[i]).guard@,
            ) by {
                assert(old(self).locks@.held(old(self).running[i].guard@));
                assert(old(self)@.running[i].depth < old(self)@.running[top].depth);
            }
        }
        done.task
    }

    /// Locks a shared resource for the executing task: raises the effective
    /// priority to the resource's ceiling, if it is not there already, until
    /// the guard is handed back. Only a task whose priority is not above the
    /// ceiling may lock, as is true of every user of the resource.
    pub fn lock(&mut self, resource: ResourceId) -> (guard: Guard)
        requires
            old(self).wf(),
            old(self)@.may_lock(resource),
        ensures
            final(self).wf(),
            final(self)@ == old(self)@.locked(resource),
            guard@ == old(self)@.locks.next_guard(),
            final(self)@.locks.innermost(guard@),
            final(self)@.locks.locks(guard@, resource),
            final(self)@.locks_held() == old(self)@.locks_held() + 1,
    {
        let guard = self.locks.acquire(resource);
        proof {
            assert(self@.running =~= old(self)@.running);
            assert(self@ == old(self)@.locked(resource));
            lemma_lock_keeps_wf(old(self)@, resource);
            assert forall|i: int| 0 <= i < self.running.len() implies self.locks@.held(
                (#[trigger] self.running[i]).guard@,
            ) by {
                assert(old(self).locks@.held(old(self).running[i].guard@));
            }
        }
        guard
    }

    /// Ends the innermost lock of the executing task and restores the
    /// priority that was in force when it was taken.
    pub fn unlock(&mut self, guard: Guard)
        requires
            old(self).wf(),
            old(self)@.running.len() > 0,
            old(self)@.locks_held() > 0,
            old(self)@.locks.innermost(guard@),
        ensures
            final(self).wf(),
            final(self)@ == old(self)@.unlocked(),
            final(self)@.effective() == guard@.restore,
            final(self)@.locks_held() == old(self)@.locks_held() - 1,
    {
        self.locks.release(guard);
        proof {
            let top = old(self)@.running.len() - 1;
            assert(self@.running =~= old(self)@.running);
            assert(self@ == old(self)@.unlocked());
            lemma_unlock_keeps_wf(old(self)@);
            assert(old(self)@.frame_ok(top));
            assert forall|i: int| 0 <= i < self.running.len() implies self.locks@.held(
                (#[trigger] self.running[i]).guard@,
            ) by {
                assert(old(self).locks@.held(old(self).running[i].guard@));
                assert(old(self)@.frame_ok(i));
                if i < top {
                    assert(old(self)@.running[i].depth < old(self)@.running[top].depth);
                }
            }
        }
    }

    /// The current tick, from one reading of the hardware counter.
    pub fn now(&self, r: Reading) -> (t: Tick)
        requires
            self.wf(),
        ensures
            t == self@.clock.now(r),
    {
        self.clock.now(r)
    }

    /// Queues an invocation of `task` for the tick `at`, and arms the clock's
    /// wake for the timed invocation that comes soonest. The action tells
    /// what the timer hardware has to do. A tick that has been reached
    /// already asks for the interrupt at once. When every slot of the task
    /// is taken the spawn is refused and nothing changes.
    pub fn spawn_at(&mut self, task: TaskId, payload: Option<u32>, at: Tick, r: Reading) -> (res:
        Result<WakeAction, SpawnError>)
        requires
            old(self).wf(),
            old(self)@.table.has_task(task as int),
        ensures
            final(self).wf(),
            match res {
                Ok(action) => {
                    &&& !old(self)@.full(task)
                    &&& final(self)@ == (RuntimeView {
                        clock: ClockView { wake: final(self)@.clock.wake, ..old(self)@.clock },
                        ..old(self)@.timed(Timed { at, invocation: Invocation { task, payload } })
                    })
                    &&& final(self)@.armed(old(self)@.clock.now(r))
                    &&& action == final(self)@.clock.pending_action(r)
                },
                Err(e) => {
                    &&& old(self)@.full(task)
                    &&& e == (SpawnError::QueueFull { task })
                    &&& final(self)@ == old(self)@
                },
            },
    {
        if self.is_full(task) {
            return Err(SpawnError::QueueFull { task });
        }
        let timed = Timed { at, invocation: Invocation { task, payload } };
        self.timers.push(timed);
        proof {
            assert(self@.running =~= old(self)@.running);
            assert(self@ == old(self)@.timed(timed));
            lemma_timed_keeps_wf(old(self)@, timed);
        }
        Ok(self.rearm(r))
    }

    /// The timer's interrupt: takes note of a pending overflow, moves every
    /// timed invocation whose tick has been reached to the end of the ready
    /// queue, in the order of their spawn, and arms the clock's wake for the
    /// one that comes soonest among the rest. The action tells what the
    /// timer hardware has to do, seen from the same reading with its
    /// overflow cleared.
    pub fn on_timer(&mut self, r: Reading) -> (action: WakeAction)
        requires
            old(self).wf(),
        ensures
            final(self).wf(),
            final(self)@ == (RuntimeView {
                clock: ClockView {
                    wake: final(self)@.clock.wake,
                    ..if r.overflow_pending {
                        old(self)@.clock.after_overflow()
                    } else {
                        old(self)@.clock
                    }
                },
                ..old(self)@.released(old(self)@.clock.now(r))
            }),
            final(self)@.clock.now(Reading { overflow_pending: false, ..r }) == old(self)@.clock.now(
                r,
            ),
            final(self)@.armed(old(self)@.clock.now(r)),
            action == final(self)@.clock.pending_action(Reading { overflow_pending: false, ..r }),
    {
        let now = self.clock.now(r);
        let served = Reading { counter: r.counter, overflow_pending: false };
        if r.overflow_pending {
            proof {
                lemma_overflow_keeps_now(self.clock@, r.counter);
            }
            self.clock.on_overflow();
        }
        let waiting = split_due(&self.timers, now, &mut self.pending);
        self.timers = waiting;
        proof {
            let released = old(self)@.released(now);
            lemma_release_keeps_wf(old(self)@, now);
            assert(self@.running =~= old(self)@.running);
            assert(self@ == (RuntimeView { clock: self@.clock, ..released }));
            lemma_clock_keeps_wf(released, self@.clock);
        }
        self.rearm(served)
    }

    /// Arms the clock's wake for the timed invocation that comes soonest, or
    /// disarms it when none is waiting.
    fn rearm(&mut self, r: Reading) -> (action: WakeAction)
        requires
            old(self).wf(),
        ensures
            final(self).wf(),
            final(self)@ == (RuntimeView {
                clock: ClockView { wake: final(self)@.clock.wake, ..old(self)@.clock },
                ..old(self)@
            }),
            final(self)@.armed(old(self)@.clock.now(r)),
            action == final(self)@.clock.pending_action(r),
    {
        let now = self.clock.now(r);
        let action = match earliest_timer(&self.timers, now) {
            Some(k) => {
                let at = self.timers[k].at;
                assert(is_earliest(self@.timers, now, k as int));
                self.clock.schedule_wake(at, r)
            },
            None => {
                self.clock.cancel_wake();
                WakeAction::Disarm
            },
        };
        proof {
            assert(self@.running =~= old(self)@.running);
            assert(self@ == (RuntimeView { clock: self@.clock, ..old(self)@ }));
            lemma_clock_keeps_wf(old(self)@, self@.clock);
        }
        action
    }

    /// The number of priority scopes that were active when the task under
    /// way as number `i` began.
    fn depth_of(&self, i: usize) -> (d: usize)
        requires
            i < self.running.len(),
            self.locks@.held(self.running[i as int].guard@),
        ensures
            d == self@.running[i as int].depth,
    {
        self.running[i].guard.depth()
    }
}

} // verus!
