//! The runtime as a mathematical value, the steps that it takes, and what
//! holds of it at every step.

use vstd::prelude::*;
use crate::clock::ClockView;
use crate::lock::{lemma_scope_keeps_wf, lemma_unwind_keeps_wf, LockView, ResourceId};
use crate::queue::{
    count_pending, count_timed, due_invocations, is_earliest, lemma_count_push, lemma_count_remove,
    lemma_count_split, lemma_count_timed_push, lemma_split_keeps_members, still_waiting,
    Invocation, Timed,
};
use crate::table::{TableView, TaskId};
use crate::tick::Tick;

verus! {

/// A task that has begun and not completed.
pub ghost struct FrameView {
    pub task: TaskId,
    /// The number of priority scopes that were active when the task began.
    pub depth: nat,
}

/// The runtime's state.
pub ghost struct RuntimeView {
    pub table: TableView,
    pub locks: LockView,
    pub clock: ClockView,
    /// The invocations that are ready to run, in the order of their arrival.
    pub pending: Seq<Invocation>,
    /// The invocations that wait for their tick, in the order of their spawn.
    pub timers: Seq<Timed>,
    /// The tasks that have begun and not completed, the one that executes
    /// last, each of the others preempted by the one after it.
    pub running: Seq<FrameView>,
}

impl RuntimeView {
    /// The static priority of `task`.
    pub open spec fn priority(self, task: TaskId) -> u8 {
        self.table.tasks[task as int].priority
    }

    /// The priority in force.
    pub open spec fn effective(self) -> u8 {
        self.locks.effective
    }

    /// The number of invocation slots of `task` that are taken.
    pub open spec fn occupancy(self, task: TaskId) -> nat {
        count_pending(self.pending, task) + count_timed(self.timers, task)
    }

    /// Whether every invocation slot of `task` is taken.
    pub open spec fn full(self, task: TaskId) -> bool {
        self.occupancy(task) >= self.table.tasks[task as int].spec_slots()
    }

    /// Whether `pending[k]` is the invocation to run next: none that is ready
    /// has a higher priority, and none of the same priority arrived earlier.
    pub open spec fn is_next(self, k: int) -> bool {
        &&& 0 <= k < self.pending.len()
        &&& forall|j: int|
            0 <= j < self.pending.len() ==> self.priority((#[trigger] self.pending[j]).task)
                <= self.priority(self.pending[k].task)
        &&& forall|j: int|
            0 <= j < k ==> self.priority((#[trigger] self.pending[j]).task) < self.priority(
                self.pending[k].task,
            )
    }

    /// Whether `pending[k]` is so urgent that it runs before what executes
    /// now.
    pub open spec fn preempts(self, k: int) -> bool {
        self.priority(self.pending[k].task) > self.effective()
    }

    /// Whether nothing that is ready is more urgent than what executes now.
    pub open spec fn settled(self) -> bool {
        forall|j: int|
            0 <= j < self.pending.len() ==> self.priority((#[trigger] self.pending[j]).task)
                <= self.effective()
    }

    /// The number of locks that the executing task holds.
    pub open spec fn locks_held(self) -> int {
        self.locks.saved.len() - self.running.last().depth - 1
    }

    /// Whether the executing task may lock `resource`: its priority is not
    /// above the ceiling, as is true of every user of the resource.
    pub open spec fn may_lock(self, resource: ResourceId) -> bool {
        &&& self.running.len() > 0
        &&& resource < self.locks.ceilings.len()
        &&& self.priority(self.running.last().task) <= self.locks.ceilings[resource as int]
    }

    /// Whether the clock's wake is armed for the timed invocation whose tick
    /// comes soonest after `now`, and is not armed when none is waiting.
    pub open spec fn armed(self, now: Tick) -> bool {
        match self.clock.wake {
            Some(at) => exists|k: int|
                #[trigger] is_earliest(self.timers, now, k) && self.timers[k].at == at,
            None => self.timers.len() == 0,
        }
    }

    /// The state after `invocation` has been queued.
    pub open spec fn spawned(self, invocation: Invocation) -> RuntimeView {
        RuntimeView { pending: self.pending.push(invocation), ..self }
    }

    /// The state after `timed` has been queued to wait for its tick.
    pub open spec fn timed(self, timed: Timed) -> RuntimeView {
        RuntimeView { timers: self.timers.push(timed), ..self }
    }

    /// The state after every timed invocation whose tick has been reached at
    /// `now` has become ready.
    pub open spec fn released(self, now: Tick) -> RuntimeView {
        RuntimeView {
            pending: self.pending + due_invocations(self.timers, now),
            timers: still_waiting(self.timers, now),
            ..self
        }
    }

    /// The state after `pending[k]` has begun to run.
    pub open spec fn dispatched(self, k: int) -> RuntimeView {
        RuntimeView {
            pending: self.pending.remove(k),
            locks: self.locks.raise(self.priority(self.pending[k].task)),
            running: self.running.push(
                FrameView { task: self.pending[k].task, depth: self.locks.saved.len() },
            ),
            ..self
        }
    }

    /// The state after the executing task has completed.
    pub open spec fn completed(self) -> RuntimeView {
        RuntimeView { locks: self.locks.release(), running: self.running.drop_last(), ..self }
    }

    /// The state after the executing task has ended in a fault: its locks
    /// are gone with it.
    pub open spec fn aborted(self) -> RuntimeView {
        RuntimeView {
            locks: self.locks.unwind(self.running.last().depth as int),
            running: self.running.drop_last(),
            ..self
        }
    }

    /// The state after the executing task has locked `resource`.
    pub open spec fn locked(self, resource: ResourceId) -> RuntimeView {
        RuntimeView { locks: self.locks.acquire(resource), ..self }
    }

    /// The state after the executing task has handed back its innermost
    /// lock.
    pub open spec fn unlocked(self) -> RuntimeView {
        RuntimeView { locks: self.locks.release(), ..self }
    }

    /// What holds of the task that began as number `i`: it began above the
    /// priority then in force, in a scope of its own that locks nothing, and
    /// its own priority is in force whenever it executes outside a lock.
    pub open spec fn frame_ok(self, i: int) -> bool {
        let frame = self.running[i];
        let depth = frame.depth as int;
        &&& self.table.has_task(frame.task as int)
        &&& depth < self.locks.saved.len()
        &&& self.locks.held[depth].is_none()
        &&& self.locks.saved[depth] < self.priority(frame.task)
        &&& depth + 1 < self.locks.saved.len() ==> self.locks.saved[depth + 1] == self.priority(
            frame.task,
        )
        &&& depth + 1 == self.locks.saved.len() ==> self.effective() == self.priority(frame.task)
    }

    /// Whether the task that began as number `i`, if it began within the
    /// lock at `depth`, is too urgent to be a user of the locked resource.
    pub open spec fn above_ceiling(self, depth: int, i: int) -> bool {
        self.locks.held[depth] matches Some(resource) ==> (self.running[i].depth > depth
            ==> self.priority(self.running[i].task) > self.locks.ceilings[resource as int])
    }

    /// Every queued invocation is of a registered task, and no task has more
    /// invocations queued than it has slots.
    pub open spec fn queues_ok(self) -> bool {
        &&& forall|j: int|
            0 <= j < self.pending.len() ==> self.table.has_task(
                (#[trigger] self.pending[j]).task as int,
            )
        &&& forall|j: int|
            0 <= j < self.timers.len() ==> self.table.has_task(
                (#[trigger] self.timers[j]).invocation.task as int,
            )
        &&& forall|task: TaskId|
            self.table.has_task(task as int) ==> #[trigger] self.occupancy(task)
                <= self.table.tasks[task as int].spec_slots()
    }

    /// The tasks under way began one above the other, each in a scope of its
    /// own, the first from the idle level, and whatever began within a lock
    /// is above the ceiling of the locked resource.
    pub open spec fn stack_ok(self) -> bool {
        &&& forall|i: int| 0 <= i < self.running.len() ==> #[trigger] self.frame_ok(i)
        &&& forall|i: int, j: int|
            0 <= i < j < self.running.len() ==> (#[trigger] self.running[i]).depth
                < (#[trigger] self.running[j]).depth
        &&& self.running.len() == 0 ==> self.locks.saved.len() == 0
        &&& self.running.len() > 0 ==> self.running[0].depth == 0
        &&& forall|depth: int, i: int|
            0 <= depth < self.locks.held.len() && 0 <= i < self.running.len()
                ==> #[trigger] self.above_ceiling(depth, i)
    }

    /// What holds of the runtime at all times.
    pub open spec fn wf(self) -> bool {
        &&& self.table.wf()
        &&& self.locks.wf()
        &&& self.clock.wf()
        &&& self.queues_ok()
        &&& self.stack_ok()
    }
}

/// A step that touches neither the task set nor the priority scopes nor the
/// tasks under way leaves their order as it is.
pub proof fn lemma_stack_untouched(before: RuntimeView, after: RuntimeView)
    requires
        before.stack_ok(),
        after.table == before.table,
        after.locks == before.locks,
        after.running == before.running,
    ensures
        after.stack_ok(),
        after.settled() <==> (RuntimeView { pending: after.pending, ..before }).settled(),
{
    assert forall|i: int| 0 <= i < after.running.len() implies #[trigger] after.frame_ok(i) by {
        assert(before.frame_ok(i));
    }
    assert forall|depth: int, i: int|
        0 <= depth < after.locks.held.len() && 0 <= i < after.running.len()
        implies #[trigger] after.above_ceiling(depth, i) by {
        assert(before.above_ceiling(depth, i));
    }
}

/// A step that touches neither the task set nor the queues leaves the
/// queues in order.
pub proof fn lemma_queues_untouched(before: RuntimeView, after: RuntimeView)
    requires
        before.queues_ok(),
        after.table == before.table,
        after.pending == before.pending,
        after.timers == before.timers,
    ensures
        after.queues_ok(),
{
    assert forall|task: TaskId| after.table.has_task(task as int) implies #[trigger] after.occupancy(
        task,
    ) <= after.table.tasks[task as int].spec_slots() by {
        assert(before.occupancy(task) <= before.table.tasks[task as int].spec_slots());
    }
}

/// Queuing an invocation of a task that has a free slot keeps the runtime
/// well formed.
pub proof fn lemma_spawn_keeps_wf(v: RuntimeView, invocation: Invocation)
    requires
        v.wf(),
        v.table.has_task(invocation.task as int),
        !v.full(invocation.task),
    ensures
        v.spawned(invocation).wf(),
{
    let after = v.spawned(invocation);
    lemma_stack_untouched(v, after);
    assert forall|task: TaskId| after.table.has_task(task as int) implies #[trigger] after.occupancy(
        task,
    ) <= after.table.tasks[task as int].spec_slots() by {
        lemma_count_push(v.pending, invocation, task);
        assert(v.occupancy(task) <= v.table.tasks[task as int].spec_slots());
    }
}

/// Queuing an invocation of a task that has a free slot to wait for its
/// tick keeps the runtime well formed.
pub proof fn lemma_timed_keeps_wf(v: RuntimeView, timed: Timed)
    requires
        v.wf(),
        v.table.has_task(timed.invocation.task as int),
        !v.full(timed.invocation.task),
    ensures
        v.timed(timed).wf(),
{
    let after = v.timed(timed);
    lemma_stack_untouched(v, after);
    assert forall|task: TaskId| after.table.has_task(task as int) implies #[trigger] after.occupancy(
        task,
    ) <= after.table.tasks[task as int].spec_slots() by {
        lemma_count_timed_push(v.timers, timed, task);
        assert(v.occupancy(task) <= v.table.tasks[task as int].spec_slots());
    }
}

/// Making the timed invocations ready whose tick has been reached keeps the
/// runtime well formed: they keep their slots.
pub proof fn lemma_release_keeps_wf(v: RuntimeView, now: Tick)
    requires
        v.wf(),
    ensures
        v.released(now).wf(),
{
    let after = v.released(now);
    lemma_stack_untouched(v, after);
    lemma_split_keeps_members(v.timers, now);
    assert forall|j: int| 0 <= j < after.pending.len() implies after.table.has_task(
        (#[trigger] after.pending[j]).task as int,
    ) by {
        if j >= v.pending.len() {
            assert(after.pending[j] == due_invocations(v.timers, now)[j - v.pending.len()]);
        }
    }
    assert forall|j: int| 0 <= j < after.timers.len() implies after.table.has_task(
        (#[trigger] after.timers[j]).invocation.task as int,
    ) by {
        assert(v.timers.contains(still_waiting(v.timers, now)[j]));
    }
    assert forall|task: TaskId| after.table.has_task(task as int) implies #[trigger] after.occupancy(
        task,
    ) <= after.table.tasks[task as int].spec_slots() by {
        lemma_count_split(v.pending, v.timers, now, task);
        assert(v.occupancy(task) <= v.table.tasks[task as int].spec_slots());
    }
}

/// Beginning the next invocation, when it preempts, keeps the runtime well
/// formed and settles it: whatever is still ready is no more urgent than the
/// task that has begun.
pub proof fn lemma_dispatch_keeps_wf(v: RuntimeView, k: int)
    requires
        v.wf(),
        v.is_next(k),
        v.preempts(k),
    ensures
        v.dispatched(k).wf(),
        v.dispatched(k).settled(),
{
    let after = v.dispatched(k);
    let top = v.running.len() as int;
    let p = v.priority(v.pending[k].task);
    lemma_scope_keeps_wf(v.locks, p, None);
    assert(v.table.has_task(v.pending[k].task as int));
    assert forall|j: int| 0 <= j < after.pending.len() implies after.table.has_task(
        (#[trigger] after.pending[j]).task as int,
    ) && after.priority(after.pending[j].task) <= after.effective() by {
        let from = if j < k { j } else { j + 1 };
        assert(after.pending[j] == v.pending[from]);
    }
    assert forall|task: TaskId| after.table.has_task(task as int) implies #[trigger] after.occupancy(
        task,
    ) <= after.table.tasks[task as int].spec_slots() by {
        lemma_count_remove(v.pending, k, task);
        assert(v.occupancy(task) <= v.table.tasks[task as int].spec_slots());
    }
    assert forall|i: int| 0 <= i < after.running.len() implies #[trigger] after.frame_ok(i) by {
        if i < top {
            assert(v.frame_ok(i));
            assert(after.running[i] == v.running[i]);
        }
    }
    assert forall|i: int, j: int| 0 <= i < j < after.running.len() implies (
    #[trigger] after.running[i]).depth < (#[trigger] after.running[j]).depth by {
        if j == top {
            assert(v.frame_ok(i));
        }
    }
    assert forall|depth: int, i: int|
        0 <= depth < after.locks.held.len() && 0 <= i < after.running.len()
        implies #[trigger] after.above_ceiling(depth, i) by {
        if i < top {
            assert(v.frame_ok(i));
            if depth < v.locks.held.len() {
                assert(v.above_ceiling(depth, i));
            }
        } else if depth < v.locks.held.len() {
            assert(v.locks.level_within(depth) <= v.locks.effective);
        }
    }
}

/// Ending the executing task, with its locks if it faulted, keeps the
/// runtime well formed and restores the priority that was in force when the
/// task began. A task that holds no lock ends the same way whether it
/// completes or faults.
pub proof fn lemma_abort_keeps_wf(v: RuntimeView)
    requires
        v.wf(),
        v.running.len() > 0,
    ensures
        v.aborted().wf(),
        v.aborted().effective() == v.locks.saved[v.running.last().depth as int],
        v.locks_held() >= 0,
        v.locks_held() == 0 ==> v.completed() == v.aborted(),
{
    let after = v.aborted();
    let top = v.running.len() - 1;
    let depth = v.running[top].depth as int;
    assert(v.frame_ok(top));
    lemma_unwind_keeps_wf(v.locks, depth);
    lemma_queues_untouched(v, after);
    assert forall|i: int| 0 <= i < after.running.len() implies #[trigger] after.frame_ok(i) by {
        assert(v.frame_ok(i));
        assert(after.running[i] == v.running[i]);
        assert(v.running[i].depth < v.running[top].depth);
    }
    assert forall|d: int, i: int|
        0 <= d < after.locks.held.len() && 0 <= i < after.running.len()
        implies #[trigger] after.above_ceiling(d, i) by {
        assert(v.above_ceiling(d, i));
    }
    if after.running.len() > 0 {
        assert(after.running[0] == v.running[0]);
    } else {
        assert(v.running[0].depth == 0);
    }
}

/// Locking a resource that the executing task may lock keeps the runtime
/// well formed.
pub proof fn lemma_lock_keeps_wf(v: RuntimeView, resource: ResourceId)
    requires
        v.wf(),
        v.may_lock(resource),
    ensures
        v.locked(resource).wf(),
        v.locked(resource).locks_held() == v.locks_held() + 1,
{
    let after = v.locked(resource);
    lemma_scope_keeps_wf(v.locks, v.locks.ceilings[resource as int], Some(resource));
    lemma_queues_untouched(v, after);
    assert forall|i: int| 0 <= i < after.running.len() implies #[trigger] after.frame_ok(i) by {
        assert(v.frame_ok(i));
    }
    assert forall|d: int, i: int|
        0 <= d < after.locks.held.len() && 0 <= i < after.running.len()
        implies #[trigger] after.above_ceiling(d, i) by {
        assert(v.frame_ok(i));
        if d < v.locks.held.len() {
            assert(v.above_ceiling(d, i));
        }
    }
}

/// Handing back the innermost lock of the executing task keeps the runtime
/// well formed.
pub proof fn lemma_unlock_keeps_wf(v: RuntimeView)
    requires
        v.wf(),
        v.running.len() > 0,
        v.locks_held() > 0,
    ensures
        v.unlocked().wf(),
        v.unlocked().locks_held() == v.locks_held() - 1,
{
    let after = v.unlocked();
    let top = v.running.len() - 1;
    assert(v.frame_ok(top));
    lemma_unwind_keeps_wf(v.locks, v.locks.saved.len() - 1);
    lemma_queues_untouched(v, after);
    assert forall|i: int| 0 <= i < after.running.len() implies #[trigger] after.frame_ok(i) by {
        assert(v.frame_ok(i));
        if i < top {
            assert(v.running[i].depth < v.running[top].depth);
        }
    }
    assert forall|d: int, i: int|
        0 <= d < after.locks.held.len() && 0 <= i < after.running.len()
        implies #[trigger] after.above_ceiling(d, i) by {
        assert(v.above_ceiling(d, i));
    }
}

/// A change of the clock alone keeps the runtime well formed.
pub proof fn lemma_clock_keeps_wf(v: RuntimeView, clock: ClockView)
    requires
        v.wf(),
        clock.wf(),
    ensures
        (RuntimeView { clock, ..v }).wf(),
{
    let after = RuntimeView { clock, ..v };
    lemma_stack_untouched(v, after);
    lemma_queues_untouched(v, after);
}

/// Once the runtime has settled, the task that executes is the most urgent
/// of all: nothing that is ready is above the priority in force, every task
/// it preempted has a strictly lower priority, and the priority in force is
/// its own unless it holds a lock. So a ready invocation that is more urgent
/// than the executing task waits for one thing only, a lock of that task.
pub proof fn lemma_executing_is_highest(v: RuntimeView)
    requires
        v.wf(),
        v.settled(),
        v.running.len() > 0,
    ensures
        forall|j: int|
            0 <= j < v.pending.len() ==> v.priority((#[trigger] v.pending[j]).task)
                <= v.effective(),
        forall|j: int|
            0 <= j < v.pending.len() && v.priority((#[trigger] v.pending[j]).task) > v.priority(
                v.running.last().task,
            ) ==> v.locks_held() > 0,
        forall|i: int|
            0 <= i < v.running.len() - 1 ==> v.priority((#[trigger] v.running[i]).task)
                < v.priority(v.running.last().task),
        v.priority(v.running.last().task) <= v.effective(),
        v.locks_held() >= 0,
        v.locks_held() == 0 ==> v.effective() == v.priority(v.running.last().task),
{
    let top = v.running.len() - 1;
    assert(v.frame_ok(top));
    assert forall|i: int| 0 <= i < top implies v.priority((#[trigger] v.running[i]).task)
        < v.priority(v.running.last().task) by {
        assert(v.frame_ok(i));
        assert(v.running[i].depth < v.running[top].depth);
    }
}

/// Mutual exclusion: a task that may lock a resource never finds it locked by
/// a task that it preempted. If the resource is locked at all, then by the
/// executing task itself.
pub proof fn lemma_mutual_exclusion(v: RuntimeView, resource: ResourceId, depth: int)
    requires
        v.wf(),
        v.may_lock(resource),
        0 <= depth < v.locks.held.len(),
        v.locks.held[depth] == Some(resource),
    ensures
        depth > v.running.last().depth,
{
    let top = v.running.len() - 1;
    assert(v.frame_ok(top));
    assert(v.above_ceiling(depth, top));
}

/// With no task under way the idle priority is in force and every ready
/// invocation preempts: the runtime is settled only when nothing is ready.
pub proof fn lemma_idle_only_when_empty(v: RuntimeView)
    requires
        v.wf(),
        v.running.len() == 0,
    ensures
        v.effective() == 0,
        v.settled() <==> v.pending.len() == 0,
{
    if v.pending.len() > 0 {
        assert(v.table.has_task(v.pending[0].task as int));
    }
}

/// There is at most one invocation to run next.
pub proof fn lemma_next_is_unique(v: RuntimeView, k1: int, k2: int)
    requires
        v.is_next(k1),
        v.is_next(k2),
    ensures
        k1 == k2,
{
}

/// Of two ready invocations of equal priority the one that arrived later is
/// never taken first, and when some other invocation is taken the two keep
/// their order in the queue.
pub proof fn lemma_fifo_among_equals(v: RuntimeView, i: int, j: int, k: int)
    requires
        0 <= i < j < v.pending.len(),
        v.priority(v.pending[i].task) == v.priority(v.pending[j].task),
        v.is_next(k),
    ensures
        k != j,
        k == i ==> v.dispatched(k).pending[j - 1] == v.pending[j],
        k != i ==> ({
            let i2 = if k < i { i - 1 } else { i };
            let j2 = if k < j { j - 1 } else { j };
            &&& 0 <= i2 < j2 < v.dispatched(k).pending.len()
            &&& v.dispatched(k).pending[i2] == v.pending[i]
            &&& v.dispatched(k).pending[j2] == v.pending[j]
        }),
{
}

/// A task that is spawned while nothing runs is the next to run.
pub proof fn lemma_startup_runs_first(v: RuntimeView)
    requires
        v.wf(),
        v.running.len() == 0,
        v.pending.len() == 1,
    ensures
        v.is_next(0),
        v.preempts(0),
{
    assert(v.table.has_task(v.pending[0].task as int));
}

} // verus!
