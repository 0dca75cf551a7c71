//! The resource lock manager: the immediate priority-ceiling protocol.
//!
//! A resource shared between tasks has a ceiling, the highest static priority
//! among the tasks that lock it. Locking the resource raises the effective
//! priority to the ceiling for the length of the scope, so that no task which
//! might want the same resource can run meanwhile. Nothing ever waits: mutual
//! exclusion comes from the priorities alone.

use vstd::prelude::*;
use crate::table::{DispatchTable, TableView, TaskId};

verus! {

/// A shared resource's identity: its position in the list of resources.
pub type ResourceId = usize;

/// The higher of two priorities.
pub open spec fn higher(a: u8, b: u8) -> u8 {
    if a >= b {
        a
    } else {
        b
    }
}

/// Whether `ceiling` is the highest static priority among the tasks `users`,
/// or zero where there are none.
pub open spec fn is_ceiling(table: TableView, users: Seq<TaskId>, ceiling: u8) -> bool {
    &&& forall|i: int|
        0 <= i < users.len() ==> table.tasks[#[trigger] users[i] as int].priority <= ceiling
    &&& if users.len() == 0 {
        ceiling == 0
    } else {
        exists|i: int|
            0 <= i < users.len() && table.tasks[#[trigger] users[i] as int].priority == ceiling
    }
}

/// The lock manager as a mathematical value.
pub ghost struct LockView {
    /// The ceiling of each resource.
    pub ceilings: Seq<u8>,
    /// The priority in force.
    pub effective: u8,
    /// For each active scope, outermost first, the priority that was in force
    /// when it began.
    pub saved: Seq<u8>,
    /// For each active scope, the resource that it holds locked, if it is a
    /// lock.
    pub held: Seq<Option<ResourceId>>,
}

/// A scope's token as a mathematical value.
pub ghost struct GuardView {
    /// The number of scopes that were active when this one began.
    pub depth: nat,
    /// The priority that was in force when this one began.
    pub restore: u8,
}

impl LockView {
    /// The state after a scope at `level` has begun, which holds `resource`
    /// locked if it is a lock.
    pub open spec fn scope(self, level: u8, resource: Option<ResourceId>) -> LockView {
        LockView {
            effective: higher(self.effective, level),
            saved: self.saved.push(self.effective),
            held: self.held.push(resource),
            ..self
        }
    }

    /// The state after a scope at `level` has begun that locks nothing.
    pub open spec fn raise(self, level: u8) -> LockView {
        self.scope(level, None)
    }

    /// The state after `resource` has been locked.
    pub open spec fn acquire(self, resource: ResourceId) -> LockView {
        self.scope(self.ceilings[resource as int], Some(resource))
    }

    /// The state after the innermost scope has ended.
    pub open spec fn release(self) -> LockView {
        LockView {
            effective: self.saved.last(),
            saved: self.saved.drop_last(),
            held: self.held.drop_last(),
            ..self
        }
    }

    /// The state after the scope at `depth` and all scopes within it have
    /// ended.
    pub open spec fn unwind(self, depth: int) -> LockView {
        LockView {
            effective: self.saved[depth],
            saved: self.saved.take(depth),
            held: self.held.take(depth),
            ..self
        }
    }

    /// The priority in force while the scope at `depth` is the innermost.
    pub open spec fn level_within(self, depth: int) -> u8 {
        if depth + 1 < self.saved.len() {
            self.saved[depth + 1]
        } else {
            self.effective
        }
    }

    /// Whether some active scope holds `resource` locked.
    pub open spec fn is_locked(self, resource: ResourceId) -> bool {
        exists|depth: int|
            0 <= depth < self.held.len() && #[trigger] self.held[depth] == Some(resource)
    }

    /// The token of the scope that `raise` begins.
    pub open spec fn next_guard(self) -> GuardView {
        GuardView { depth: self.saved.len(), restore: self.effective }
    }

    /// Whether `guard` belongs to a scope that is active.
    pub open spec fn held(self, guard: GuardView) -> bool {
        guard.depth < self.saved.len() && self.saved[guard.depth as int] == guard.restore
    }

    /// Whether `guard` belongs to an active scope that holds `resource`
    /// locked.
    pub open spec fn locks(self, guard: GuardView, resource: ResourceId) -> bool {
        self.held(guard) && self.held[guard.depth as int] == Some(resource)
    }

    /// Whether `guard` belongs to the scope that began last.
    pub open spec fn innermost(self, guard: GuardView) -> bool {
        self.held(guard) && guard.depth + 1 == self.saved.len()
    }

    /// The priority only ever rose from one scope to the next, is at the
    /// idle level when no scope is active, and is at the ceiling or above
    /// within every lock.
    pub open spec fn wf(self) -> bool {
        &&& self.held.len() == self.saved.len()
        &&& forall|i: int, j: int| 0 <= i <= j < self.saved.len() ==> self.saved[i] <= self.saved[j]
        &&& forall|i: int| 0 <= i < self.saved.len() ==> self.saved[i] <= self.effective
        &&& self.saved.len() > 0 ==> self.saved[0] == 0
        &&& self.saved.len() == 0 ==> self.effective == 0
        &&& forall|depth: int|
            0 <= depth < self.held.len() ==> (#[trigger] self.held[depth] matches Some(resource)
                ==> resource < self.ceilings.len() && self.ceilings[resource as int]
                <= self.level_within(depth))
    }
}

/// The token of one scope of raised priority. It ends the scope when it is
/// handed back, and cannot be copied.
#[derive(Debug)]
pub struct Guard {
    depth: usize,
    restore: u8,
}

impl View for Guard {
    type V = GuardView;

    closed spec fn view(&self) -> GuardView {
        GuardView { depth: self.depth as nat, restore: self.restore }
    }
}

impl Guard {
    /// The number of scopes that were active when this one began.
    pub fn depth(&self) -> (d: usize)
        ensures
            d == self@.depth,
    {
        self.depth
    }

    /// The priority that was in force when this scope began, and that comes
    /// back when it ends.
    pub fn restore(&self) -> (p: u8)
        ensures
            p == self@.restore,
    {
        self.restore
    }
}

/// Holds the ceilings and the effective priority, and raises and restores the
/// priority scope by scope.
pub struct LockManager {
    ceilings: Vec<u8>,
    effective: u8,
    saved: Vec<u8>,
    held: Vec<Option<ResourceId>>,
}

impl View for LockManager {
    type V = LockView;

    closed spec fn view(&self) -> LockView {
        LockView {
            ceilings: self.ceilings@,
            effective: self.effective,
            saved: self.saved@,
            held: self.held@,
        }
    }
}

/// The ceiling of a resource that the tasks `users` lock.
pub fn ceiling_for(table: &DispatchTable, users: &Vec<TaskId>) -> (ceiling: u8)
    requires
        forall|i: int| 0 <= i < users.len() ==> table@.has_task(#[trigger] users[i] as int),
    ensures
        is_ceiling(table@, users@, ceiling),
{
    let mut ceiling: u8 = 0;
    let mut i: usize = 0;
    while i < users.len()
        invariant
            0 <= i <= users.len(),
            forall|k: int| 0 <= k < users.len() ==> table@.has_task(#[trigger] users[k] as int),
            forall|k: int|
                0 <= k < i ==> table@.tasks[#[trigger] users[k] as int].priority <= ceiling,
            if i == 0 {
                ceiling == 0
            } else {
                exists|k: int|
                    0 <= k < i && table@.tasks[#[trigger] users[k] as int].priority == ceiling
            },
        decreases users.len() - i,
    {
        let p: u8 = table.priority_of(users[i]);
        if p > ceiling || i == 0 {
            ceiling = p;
        }
        i += 1;
    }
    ceiling
}

impl LockManager {
    /// The manager's state is one that `new`, `raise`, `acquire`, `release`
    /// and `unwind` lead to.
    pub open spec fn wf(&self) -> bool {
        self@.wf()
    }

    /// A lock manager for the resources whose users are listed in `users`,
    /// one list of tasks for each resource. Each ceiling is computed here,
    /// once, from the static priorities. No scope is active, and the idle
    /// priority is in force.
    pub fn new(table: &DispatchTable, users: &Vec<Vec<TaskId>>) -> (manager: LockManager)
        requires
            forall|r: int, i: int|
                0 <= r < users.len() && 0 <= i < users[r].len() ==> table@.has_task(
                    #[trigger] users[r][i] as int,
                ),
        ensures
            manager.wf(),
            manager@.effective == 0,
            manager@.saved.len() == 0,
            manager@.held.len() == 0,
            manager@.ceilings.len() == users.len(),
            forall|r: int|
                0 <= r < users.len() ==> is_ceiling(
                    table@,
                    users[r]@,
                    #[trigger] manager@.ceilings[r],
                ),
    {
        let mut ceilings: Vec<u8> = Vec::new();
        let mut r: usize = 0;
        while r < users.len()
            invariant
                0 <= r <= users.len(),
                ceilings.len() == r,
                forall|q: int, i: int|
                    0 <= q < users.len() && 0 <= i < users[q].len() ==> table@.has_task(
                        #[trigger] users[q][i] as int,
                    ),
                forall|q: int|
                    0 <= q < r ==> is_ceiling(table@, users[q]@, #[trigger] ceilings[q]),
            decreases users.len() - r,
        {
            let list = &users[r];
            assert forall|i: int| 0 <= i < list.len() implies table@.has_task(
                #[trigger] list[i] as int,
            ) by {
                assert(table@.has_task(users[r as int][i] as int));
            }
            let c: u8 = ceiling_for(table, list);
            ceilings.push(c);
            r += 1;
        }
        LockManager { ceilings, effective: 0, saved: Vec::new(), held: Vec::new() }
    }

    /// The priority in force.
    pub fn effective(&self) -> (p: u8)
        ensures
            p == self@.effective,
    {
        self.effective
    }

    /// The number of scopes that are active.
    pub fn depth(&self) -> (n: usize)
        ensures
            n == self@.saved.len(),
    {
        self.saved.len()
    }

    /// The number of resources.
    pub fn resources(&self) -> (n: usize)
        ensures
            n == self@.ceilings.len(),
    {
        self.ceilings.len()
    }

    /// The ceiling of a resource.
    pub fn ceiling(&self, resource: ResourceId) -> (c: u8)
        requires
            resource < self@.ceilings.len(),
        ensures
            c == self@.ceilings[resource as int],
    {
        self.ceilings[resource]
    }

    /// Whether `guard` belongs to the scope that began last, the only one
    /// that may end next.
    pub fn is_innermost(&self, guard: &Guard) -> (b: bool)
        ensures
            b == self@.innermost(guard@),
    {
        guard.depth < self.saved.len() && self.saved[guard.depth] == guard.restore && guard.depth
            == self.saved.len() - 1
    }

    /// Whether `guard` belongs to a scope that is active.
    pub fn holds(&self, guard: &Guard) -> (b: bool)
        ensures
            b == self@.held(guard@),
    {
        guard.depth < self.saved.len() && self.saved[guard.depth] == guard.restore
    }

    /// Whether `guard` belongs to an active scope that holds `resource`
    /// locked.
    pub fn guards(&self, guard: &Guard, resource: ResourceId) -> (b: bool)
        requires
            self.wf(),
        ensures
            b == self@.locks(guard@, resource),
    {
        if guard.depth < self.saved.len() && self.saved[guard.depth] == guard.restore {
            match self.held[guard.depth] {
                Some(r) => r == resource,
                None => false,
            }
        } else {
            false
        }
    }

    /// Whether some active scope holds `resource` locked.
    pub fn is_locked(&self, resource: ResourceId) -> (b: bool)
        ensures
            b == self@.is_locked(resource),
    {
        let mut i: usize = 0;
        while i < self.held.len()
            invariant
                0 <= i <= self.held.len(),
                forall|depth: int| 0 <= depth < i ==> self.held[depth] != Some(resource),
            decreases self.held.len() - i,
        {
            match self.held[i] {
                Some(r) => {
                    if r == resource {
                        return true;
                    }
                },
                None => {},
            }
            i += 1;
        }
        false
    }

    /// Begins a scope in which the effective priority is at least `level`.
    /// The scheduler begins one for every task that it starts.
    pub fn raise(&mut self, level: u8) -> (guard: Guard)
        requires
            old(self).wf(),
        ensures
            final(self).wf(),
            final(self)@ == old(self)@.raise(level),
            guard@ == old(self)@.next_guard(),
            final(self)@.innermost(guard@),
    {
        self.begin(level, None)
    }

    /// Locks a resource: begins a scope in which the effective priority is at
    /// least the resource's ceiling. Where the priority in force is at the
    /// ceiling or above already, nothing is raised.
    pub fn acquire(&mut self, resource: ResourceId) -> (guard: Guard)
        requires
            old(self).wf(),
            resource < old(self)@.ceilings.len(),
        ensures
            final(self).wf(),
            final(self)@ == old(self)@.acquire(resource),
            guard@ == old(self)@.next_guard(),
            final(self)@.innermost(guard@),
    {
        let level: u8 = self.ceilings[resource];
        self.begin(level, Some(resource))
    }

    fn begin(&mut self, level: u8, resource: Option<ResourceId>) -> (guard: Guard)
        requires
            old(self).wf(),
            resource matches Some(r) ==> r < old(self)@.ceilings.len() && level == old(
                self,
            )@.ceilings[r as int],
        ensures
            final(self).wf(),
            final(self)@ == old(self)@.scope(level, resource),
            guard@ == old(self)@.next_guard(),
            final(self)@.innermost(guard@),
    {
        let guard = Guard { depth: self.saved.len(), restore: self.effective };
        self.saved.push(self.effective);
        self.held.push(resource);
        if level > self.effective {
            self.effective = level;
        }
        proof {
            lemma_scope_keeps_wf(old(self)@, level, resource);
        }
        guard
    }

    /// Ends the innermost scope and restores the priority that was in force
    /// when it began.
    pub fn release(&mut self, guard: Guard)
        requires
            old(self).wf(),
            old(self)@.innermost(guard@),
        ensures
            final(self).wf(),
            final(self)@ == old(self)@.release(),
            final(self)@.effective == guard@.restore,
    {
        self.saved.truncate(guard.depth);
        self.held.truncate(guard.depth);
        self.effective = guard.restore;
        proof {
            lemma_unwind_keeps_wf(old(self)@, guard.depth as int);
        }
    }

    /// Ends the scope of `guard` together with every scope that began within
    /// it, as when a fault unwinds through them, and restores the priority
    /// that was in force when the scope of `guard` began.
    pub fn unwind(&mut self, guard: Guard)
        requires
            old(self).wf(),
            old(self)@.held(guard@),
        ensures
            final(self).wf(),
            final(self)@ == old(self)@.unwind(guard@.depth as int),
            final(self)@.effective == guard@.restore,
    {
        self.saved.truncate(guard.depth);
        self.held.truncate(guard.depth);
        self.effective = guard.restore;
        proof {
            lemma_unwind_keeps_wf(old(self)@, guard.depth as int);
        }
    }
}

/// Beginning a scope keeps the state well formed: the priority does not
/// fall, and a lock begins at the ceiling of its resource or above.
pub proof fn lemma_scope_keeps_wf(v: LockView, level: u8, resource: Option<ResourceId>)
    requires
        v.wf(),
        resource matches Some(r) ==> r < v.ceilings.len() && level == v.ceilings[r as int],
    ensures
        v.scope(level, resource).wf(),
{
    let after = v.scope(level, resource);
    assert forall|depth: int| 0 <= depth < after.held.len() implies (
    #[trigger] after.held[depth] matches Some(r) ==> r < after.ceilings.len()
        && after.ceilings[r as int] <= after.level_within(depth)) by {
        if depth < v.held.len() {
            assert(after.held[depth] == v.held[depth]);
            assert(v.level_within(depth) <= after.level_within(depth));
        }
    }
}

/// Ending a scope, alone or with the scopes within it, keeps the state well
/// formed. Ending the innermost scope is unwinding to its depth.
pub proof fn lemma_unwind_keeps_wf(v: LockView, depth: int)
    requires
        v.wf(),
        0 <= depth < v.saved.len(),
    ensures
        v.unwind(depth).wf(),
        depth == v.saved.len() - 1 ==> v.unwind(depth) == v.release(),
{
    let after = v.unwind(depth);
    assert forall|d: int| 0 <= d < after.held.len() implies (#[trigger] after.held[d] matches Some(
        r,
    ) ==> r < after.ceilings.len() && after.ceilings[r as int] <= after.level_within(d)) by {
        assert(after.held[d] == v.held[d]);
        assert(after.level_within(d) == v.level_within(d));
    }
    if depth == v.saved.len() - 1 {
        assert(v.saved.take(depth) =~= v.saved.drop_last());
        assert(v.held.take(depth) =~= v.held.drop_last());
    }
}

/// A piece of state shared between tasks. It can be reached only with the
/// guard of an active lock on its resource, so that it is never touched
/// outside a lock scope.
pub struct Shared<T> {
    resource: ResourceId,
    value: T,
}

impl<T> View for Shared<T> {
    type V = T;

    closed spec fn view(&self) -> T {
        self.value
    }
}

impl<T> Shared<T> {
    /// The resource that stands for this state in the lock manager.
    pub closed spec fn spec_resource(&self) -> ResourceId {
        self.resource
    }

    /// Puts `value` under the protection of the locks on `resource`.
    pub fn new(resource: ResourceId, value: T) -> (shared: Shared<T>)
        ensures
            shared@ == value,
            shared.spec_resource() == resource,
    {
        Shared { resource, value }
    }

    /// The resource that stands for this state in the lock manager.
    #[verifier::when_used_as_spec(spec_resource)]
    pub fn resource(&self) -> (resource: ResourceId)
        ensures
            resource == self.spec_resource(),
    {
        self.resource
    }

    /// Read access, within the lock scope of `guard`.
    pub fn borrow<'a>(&'a self, manager: &LockManager, guard: &Guard) -> (value: &'a T)
        requires
            manager@.locks(guard@, self.spec_resource()),
        ensures
            *value == self@,
    {
        &self.value
    }

    /// Write access, within the lock scope of `guard`.
    pub fn borrow_mut<'a>(&'a mut self, manager: &LockManager, guard: &Guard) -> (value: &'a mut T)
        requires
            manager@.locks(guard@, old(self).spec_resource()),
        ensures
            *value == old(self)@,
            final(self)@ == *final(value),
            final(self).spec_resource() == old(self).spec_resource(),
    {
        &mut self.value
    }
}

/// The state after `resources` have been locked, one within the other.
pub open spec fn acquire_all(start: LockView, resources: Seq<ResourceId>) -> LockView
    decreases resources.len(),
{
    if resources.len() == 0 {
        start
    } else {
        acquire_all(start, resources.drop_last()).acquire(resources.last())
    }
}

/// The state after the `n` innermost scopes have ended, innermost first.
pub open spec fn release_all(start: LockView, n: nat) -> LockView
    decreases n,
{
    if n == 0 {
        start
    } else {
        release_all(start.release(), (n - 1) as nat)
    }
}

/// A scope that begins and ends leaves everything as it was, and while it
/// lasts the priority in force is at its level or above.
pub proof fn lemma_release_undoes_scope(start: LockView, level: u8, resource: Option<ResourceId>)
    ensures
        start.scope(level, resource).release() == start,
        start.scope(level, resource).effective >= level,
        start.scope(level, resource).effective >= start.effective,
{
    assert(start.saved.push(start.effective).drop_last() =~= start.saved);
    assert(start.held.push(resource).drop_last() =~= start.held);
}

/// After any nesting of locks, handing them back in reverse order restores
/// the effective priority, and the whole state, to what it was before the
/// first was taken. Unwinding through all of them at once does the same.
pub proof fn lemma_nested_locks_restore(start: LockView, resources: Seq<ResourceId>)
    requires
        start.held.len() == start.saved.len(),
    ensures
        acquire_all(start, resources).saved.len() == start.saved.len() + resources.len(),
        release_all(acquire_all(start, resources), resources.len()) == start,
        resources.len() > 0 ==> acquire_all(start, resources).unwind(start.saved.len() as int)
            == start,
    decreases resources.len(),
{
    if resources.len() > 0 {
        let inner = acquire_all(start, resources.drop_last());
        lemma_nested_locks_restore(start, resources.drop_last());
        lemma_release_undoes_scope(
            inner,
            inner.ceilings[resources.last() as int],
            Some(resources.last()),
        );
        lemma_acquire_all_keeps_outer(start, resources);
        let all = acquire_all(start, resources);
        assert(all.saved.take(start.saved.len() as int) =~= start.saved);
        assert(all.held.take(start.held.len() as int) =~= start.held);
    }
}

/// While locks are nested, the effective priority is at the ceiling of each
/// of them or above, and at least what it was before: whoever holds a
/// resource runs at its ceiling until the lock is handed back.
pub proof fn lemma_locks_hold_their_ceiling(start: LockView, resources: Seq<ResourceId>)
    ensures
        acquire_all(start, resources).ceilings == start.ceilings,
        acquire_all(start, resources).effective >= start.effective,
        forall|i: int|
            0 <= i < resources.len() ==> acquire_all(start, resources).effective
                >= start.ceilings[#[trigger] resources[i] as int],
    decreases resources.len(),
{
    if resources.len() > 0 {
        lemma_locks_hold_their_ceiling(start, resources.drop_last());
        assert forall|i: int| 0 <= i < resources.len() implies acquire_all(
            start,
            resources,
        ).effective >= start.ceilings[#[trigger] resources[i] as int] by {
            if i < resources.len() - 1 {
                assert(resources.drop_last()[i] == resources[i]);
            }
        }
    }
}

/// Nesting locks keeps the record of the scopes that were active before, and
/// saves the starting priority for the first new one.
proof fn lemma_acquire_all_keeps_outer(start: LockView, resources: Seq<ResourceId>)
    requires
        start.held.len() == start.saved.len(),
    ensures
        acquire_all(start, resources).ceilings == start.ceilings,
        acquire_all(start, resources).saved.len() == start.saved.len() + resources.len(),
        acquire_all(start, resources).held.len() == start.held.len() + resources.len(),
        forall|i: int|
            0 <= i < start.saved.len() ==> acquire_all(start, resources).saved[i] == start.saved[i]
                && acquire_all(start, resources).held[i] == start.held[i],
        resources.len() > 0 ==> acquire_all(start, resources).saved[start.saved.len() as int]
            == start.effective,
    decreases resources.len(),
{
    if resources.len() > 0 {
        lemma_acquire_all_keeps_outer(start, resources.drop_last());
    }
}

} // verus!
