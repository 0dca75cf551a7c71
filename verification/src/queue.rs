//! The queues of the runtime: invocations that are ready, and invocations
//! that wait for their tick.

use vstd::prelude::*;
use crate::table::TaskId;
use crate::tick::Tick;

verus! {

/// A queued request to run a task, with the payload it will be handed.
#[derive(Clone, Copy, Debug, PartialEq, Eq)]
pub struct Invocation {
    pub task: TaskId,
    pub payload: Option<u32>,
}

/// An invocation that waits for its tick.
#[derive(Clone, Copy, Debug, PartialEq, Eq)]
pub struct Timed {
    pub at: Tick,
    pub invocation: Invocation,
}

/// The number of invocations of `task` in a queue.
pub open spec fn count_pending(queue: Seq<Invocation>, task: TaskId) -> nat
    decreases queue.len(),
{
    if queue.len() == 0 {
        0
    } else {
        count_pending(queue.drop_last(), task) + if queue.last().task == task {
            1nat
        } else {
            0nat
        }
    }
}

/// The number of invocations of `task` that wait for their tick.
pub open spec fn count_timed(timers: Seq<Timed>, task: TaskId) -> nat
    decreases timers.len(),
{
    if timers.len() == 0 {
        0
    } else {
        count_timed(timers.drop_last(), task) + if timers.last().invocation.task == task {
            1nat
        } else {
            0nat
        }
    }
}

/// Tells the timed invocations whose tick has been reached at `now`.
pub open spec fn is_due(now: Tick) -> spec_fn(Timed) -> bool {
    |t: Timed| now.spec_reached(t.at)
}

/// Tells the timed invocations whose tick is still ahead of `now`.
pub open spec fn is_waiting(now: Tick) -> spec_fn(Timed) -> bool {
    |t: Timed| !now.spec_reached(t.at)
}

/// Takes the invocation out of a timed invocation.
pub open spec fn invocation_of() -> spec_fn(Timed) -> Invocation {
    |t: Timed| t.invocation
}

/// The invocations whose tick has been reached at `now`, in the order of
/// their spawn.
pub open spec fn due_invocations(timers: Seq<Timed>, now: Tick) -> Seq<Invocation> {
    timers.filter(is_due(now)).map_values(invocation_of())
}

/// The timed invocations whose tick is still ahead of `now`, in the order of
/// their spawn.
pub open spec fn still_waiting(timers: Seq<Timed>, now: Tick) -> Seq<Timed> {
    timers.filter(is_waiting(now))
}

/// How far ahead of `now` the tick `at` lies: zero when it has been reached,
/// else the number of counts still to go.
pub open spec fn urgency(now: Tick, at: Tick) -> int {
    if now.spec_reached(at) {
        0
    } else {
        at.spec_since(now)
    }
}

/// Whether `timers[k]` is the timed invocation to wake for: none has a tick
/// that comes sooner, and none with the same tick was spawned earlier.
pub open spec fn is_earliest(timers: Seq<Timed>, now: Tick, k: int) -> bool {
    &&& 0 <= k < timers.len()
    &&& forall|j: int|
        0 <= j < timers.len() ==> urgency(now, timers[k].at) <= urgency(
            now,
            (#[trigger] timers[j]).at,
        )
    &&& forall|j: int|
        0 <= j < k ==> urgency(now, timers[k].at) < urgency(now, (#[trigger] timers[j]).at)
}

/// Counts the invocations of `task` in a queue.
pub fn occupancy_of_queue(queue: &Vec<Invocation>, task: TaskId) -> (n: usize)
    ensures
        n == count_pending(queue@, task),
{
    let mut n: usize = 0;
    let mut i: usize = 0;
    while i < queue.len()
        invariant
            0 <= i <= queue.len(),
            n <= i,
            n == count_pending(queue@.take(i as int), task),
        decreases queue.len() - i,
    {
        assert(queue@.take(i + 1).drop_last() == queue@.take(i as int));
        if queue[i].task == task {
            n += 1;
        }
        i += 1;
    }
    assert(queue@.take(i as int) == queue@);
    n
}

/// Counts the invocations of `task` that wait for their tick.
pub fn occupancy_of_timers(timers: &Vec<Timed>, task: TaskId) -> (n: usize)
    ensures
        n == count_timed(timers@, task),
{
    let mut n: usize = 0;
    let mut i: usize = 0;
    while i < timers.len()
        invariant
            0 <= i <= timers.len(),
            n <= i,
            n == count_timed(timers@.take(i as int), task),
        decreases timers.len() - i,
    {
        assert(timers@.take(i + 1).drop_last() == timers@.take(i as int));
        if timers[i].invocation.task == task {
            n += 1;
        }
        i += 1;
    }
    assert(timers@.take(i as int) == timers@);
    n
}

/// How far ahead of `now` the tick `at` lies.
pub fn urgency_of(now: Tick, at: Tick) -> (n: u64)
    ensures
        n == urgency(now, at),
{
    if now.reached(at) {
        0
    } else {
        at.since(now)
    }
}

/// Finds the timed invocation to wake for.
pub fn earliest_timer(timers: &Vec<Timed>, now: Tick) -> (res: Option<usize>)
    ensures
        match res {
            Some(k) => is_earliest(timers@, now, k as int),
            None => timers.len() == 0,
        },
{
    if timers.len() == 0 {
        return None;
    }
    let mut best: usize = 0;
    let mut best_urgency: u64 = urgency_of(now, timers[0].at);
    let mut i: usize = 1;
    while i < timers.len()
        invariant
            1 <= i <= timers.len(),
            best < i,
            best_urgency == urgency(now, timers[best as int].at),
            forall|j: int| 0 <= j < i ==> best_urgency <= urgency(now, (#[trigger] timers[j]).at),
            forall|j: int| 0 <= j < best ==> best_urgency < urgency(now, (#[trigger] timers[j]).at),
        decreases timers.len() - i,
    {
        let u: u64 = urgency_of(now, timers[i].at);
        if u < best_urgency {
            best = i;
            best_urgency = u;
        }
        i += 1;
    }
    Some(best)
}

/// Moves the invocations whose tick has been reached at `now` to the end of
/// the ready queue, in the order of their spawn, and hands back the rest.
pub fn split_due(timers: &Vec<Timed>, now: Tick, pending: &mut Vec<Invocation>) -> (waiting: Vec<
    Timed,
>)
    ensures
        final(pending)@ == old(pending)@ + due_invocations(timers@, now),
        waiting@ == still_waiting(timers@, now),
{
    let mut waiting: Vec<Timed> = Vec::new();
    let mut i: usize = 0;
    proof {
        reveal(Seq::filter);
        assert(timers@.take(0).filter(is_due(now)).len() == 0);
        assert(due_invocations(timers@.take(0), now) =~= Seq::empty());
        assert(pending@ =~= old(pending)@ + due_invocations(timers@.take(0), now));
    }
    while i < timers.len()
        invariant
            0 <= i <= timers.len(),
            pending@ == old(pending)@ + due_invocations(timers@.take(i as int), now),
            waiting@ == still_waiting(timers@.take(i as int), now),
        decreases timers.len() - i,
    {
        let t = timers[i];
        let ghost before = timers@.take(i as int);
        let ghost after = timers@.take(i + 1);
        proof {
            reveal(Seq::filter);
            assert(after.drop_last() =~= before);
            assert(after.last() == t);
        }
        if now.reached(t.at) {
            pending.push(t.invocation);
            proof {
                assert(after.filter(is_due(now)) == before.filter(is_due(now)).push(t));
                assert(due_invocations(after, now) =~= due_invocations(before, now).push(
                    t.invocation,
                ));
                assert(pending@ =~= old(pending)@ + due_invocations(after, now));
            }
        } else {
            waiting.push(t);
        }
        i += 1;
    }
    assert(timers@.take(i as int) == timers@);
    waiting
}

/// Splitting the timed invocations at `now` invents nothing: each invocation
/// that becomes ready was timed with a tick that has been reached, and each
/// timed invocation that is kept was there before, with its tick still ahead.
pub proof fn lemma_split_keeps_members(timers: Seq<Timed>, now: Tick)
    ensures
        forall|j: int|
            0 <= j < due_invocations(timers, now).len() ==> exists|k: int|
                0 <= k < timers.len() && now.spec_reached(timers[k].at) && timers[k].invocation
                    == #[trigger] due_invocations(timers, now)[j],
        forall|j: int|
            0 <= j < still_waiting(timers, now).len() ==> !now.spec_reached(
                (#[trigger] still_waiting(timers, now)[j]).at,
            ) && timers.contains(still_waiting(timers, now)[j]),
{
    let due = timers.filter(is_due(now));
    let rest = still_waiting(timers, now);
    assert forall|j: int| 0 <= j < due_invocations(timers, now).len() implies exists|k: int|
        0 <= k < timers.len() && now.spec_reached(timers[k].at) && timers[k].invocation
            == #[trigger] due_invocations(timers, now)[j] by {
        timers.lemma_filter_pred(is_due(now), j);
        assert(due.contains(due[j]));
        timers.lemma_filter_contains_rev(is_due(now), due[j]);
        let k = choose|k: int| 0 <= k < timers.len() && timers[k] == due[j];
        assert(timers[k].invocation == due_invocations(timers, now)[j]);
    }
    assert forall|j: int| 0 <= j < rest.len() implies !now.spec_reached((#[trigger] rest[j]).at)
        && timers.contains(rest[j]) by {
        timers.lemma_filter_pred(is_waiting(now), j);
        assert(rest.contains(rest[j]));
        timers.lemma_filter_contains_rev(is_waiting(now), rest[j]);
    }
}

/// Queuing an invocation takes one slot of its task and none of any other.
pub proof fn lemma_count_push(queue: Seq<Invocation>, invocation: Invocation, task: TaskId)
    ensures
        count_pending(queue.push(invocation), task) == count_pending(queue, task) + if invocation.task
            == task {
            1nat
        } else {
            0nat
        },
{
    assert(queue.push(invocation).drop_last() =~= queue);
}

/// Timing an invocation takes one slot of its task and none of any other.
pub proof fn lemma_count_timed_push(timers: Seq<Timed>, timed: Timed, task: TaskId)
    ensures
        count_timed(timers.push(timed), task) == count_timed(timers, task) + if timed.invocation.task
            == task {
            1nat
        } else {
            0nat
        },
{
    assert(timers.push(timed).drop_last() =~= timers);
}

/// Taking an invocation out of the queue frees one slot of its task and none
/// of any other.
pub proof fn lemma_count_remove(queue: Seq<Invocation>, k: int, task: TaskId)
    requires
        0 <= k < queue.len(),
    ensures
        count_pending(queue, task) == count_pending(queue.remove(k), task) + if queue[k].task
            == task {
            1nat
        } else {
            0nat
        },
    decreases queue.len(),
{
    if k == queue.len() - 1 {
        assert(queue.remove(k) =~= queue.drop_last());
    } else {
        lemma_count_remove(queue.drop_last(), k, task);
        assert(queue.remove(k).drop_last() =~= queue.drop_last().remove(k));
        assert(queue.remove(k).last() == queue.last());
    }
}

/// Moving the timed invocations that are due to the ready queue keeps the
/// number of slots that each task has taken.
pub proof fn lemma_count_split(
    pending: Seq<Invocation>,
    timers: Seq<Timed>,
    now: Tick,
    task: TaskId,
)
    ensures
        count_pending(pending + due_invocations(timers, now), task) + count_timed(
            still_waiting(timers, now),
            task,
        ) == count_pending(pending, task) + count_timed(timers, task),
    decreases timers.len(),
{
    reveal(Seq::filter);
    if timers.len() == 0 {
        assert(pending + due_invocations(timers, now) =~= pending);
    } else {
        let rest = timers.drop_last();
        let last = timers.last();
        lemma_count_split(pending, rest, now, task);
        if now.spec_reached(last.at) {
            assert(timers.filter(is_due(now)) == rest.filter(is_due(now)).push(last));
            assert(pending + due_invocations(timers, now) =~= (pending + due_invocations(
                rest,
                now,
            )).push(last.invocation));
            lemma_count_push(pending + due_invocations(rest, now), last.invocation, task);
            assert(still_waiting(timers, now) == still_waiting(rest, now));
        } else {
            assert(timers.filter(is_due(now)) == rest.filter(is_due(now)));
            assert(still_waiting(timers, now) == still_waiting(rest, now).push(last));
            lemma_count_timed_push(still_waiting(rest, now), last, task);
        }
    }
}

/// There is at most one timed invocation to wake for.
pub proof fn lemma_earliest_is_unique(timers: Seq<Timed>, now: Tick, k1: int, k2: int)
    requires
        is_earliest(timers, now, k1),
        is_earliest(timers, now, k2),
    ensures
        k1 == k2,
{
}

} // verus!
