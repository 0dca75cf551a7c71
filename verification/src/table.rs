//! The priority dispatch table: the fixed task set, built once at startup.

use vstd::prelude::*;
use crate::error::ConfigError;

verus! {

/// A task's identity: its position in the order of registration.
pub type TaskId = usize;

/// How a task comes to run.
#[derive(Clone, Copy, Debug, PartialEq, Eq, Structural)]
pub enum Binding {
    /// The task runs when the hardware interrupt source fires.
    Interrupt { source: u16 },
    /// The task runs when it is spawned. At most `capacity` invocations of it
    /// can be pending at a time.
    Software { capacity: usize },
}

/// One task of the static task set.
#[derive(Clone, Copy, Debug, PartialEq, Eq, Structural)]
pub struct TaskDecl {
    /// The static priority; a higher number is more urgent. Zero is the idle
    /// level and belongs to no task.
    pub priority: u8,
    pub binding: Binding,
    /// The handle by which the caller finds the task's entry procedure.
    pub entry: u32,
}

impl TaskDecl {
    /// The number of invocations of the task that can be pending at a time.
    /// An interrupt source has one pending flag.
    pub open spec fn spec_slots(self) -> usize {
        match self.binding {
            Binding::Interrupt { .. } => 1,
            Binding::Software { capacity } => capacity,
        }
    }

    #[verifier::when_used_as_spec(spec_slots)]
    pub fn slots(self) -> (n: usize)
        ensures
            n == self.spec_slots(),
    {
        match self.binding {
            Binding::Interrupt { .. } => 1,
            Binding::Software { capacity } => capacity,
        }
    }
}

/// The table as a mathematical value.
pub ghost struct TableView {
    /// The number of priority levels above idle that the hardware supports.
    pub levels: u8,
    /// The tasks, in the order of registration.
    pub tasks: Seq<TaskDecl>,
}

impl TableView {
    /// Whether `task` is the identity of a registered task.
    pub open spec fn has_task(self, task: int) -> bool {
        0 <= task < self.tasks.len()
    }

    /// Whether `task` is the task bound to the interrupt source `source`.
    pub open spec fn is_bound(self, task: int, source: u16) -> bool {
        self.has_task(task) && self.tasks[task].binding == (Binding::Interrupt { source })
    }

    /// Whether some task is bound to the interrupt source `source`.
    pub open spec fn claimed(self, source: u16) -> bool {
        exists|task: int| self.is_bound(task, source)
    }

    /// The fault that keeps `decl` from being registered next, if any.
    pub open spec fn fault(self, decl: TaskDecl) -> Option<ConfigError> {
        let task = self.tasks.len() as usize;
        if decl.priority == 0 || decl.priority > self.levels {
            Some(ConfigError::PriorityOutOfRange { task, priority: decl.priority })
        } else {
            match decl.binding {
                Binding::Interrupt { source } if self.claimed(source) => Some(
                    ConfigError::DuplicateSource { task, source },
                ),
                _ => None,
            }
        }
    }

    /// The table with `decl` registered as its next task.
    pub open spec fn with(self, decl: TaskDecl) -> TableView {
        TableView { tasks: self.tasks.push(decl), ..self }
    }

    /// Every priority is one the hardware has, and no interrupt source is
    /// claimed twice.
    pub open spec fn wf(self) -> bool {
        &&& forall|task: int|
            self.has_task(task) ==> 1 <= (#[trigger] self.tasks[task]).priority <= self.levels
        &&& forall|t1: int, t2: int, source: u16|
            self.is_bound(t1, source) && self.is_bound(t2, source) ==> t1 == t2
    }
}

/// The fault at position `i` of a list of declarations registered in order.
pub open spec fn fault_at(levels: u8, decls: Seq<TaskDecl>, i: int) -> Option<ConfigError> {
    (TableView { levels, tasks: decls.take(i) }).fault(decls[i])
}

/// The static mapping from task identity to priority and entry point, and
/// from interrupt source to task. It has no operation that changes it.
pub struct DispatchTable {
    levels: u8,
    tasks: Vec<TaskDecl>,
    /// By interrupt source, the task bound to it.
    by_source: Vec<Option<usize>>,
}

impl View for DispatchTable {
    type V = TableView;

    closed spec fn view(&self) -> TableView {
        TableView { levels: self.levels, tasks: self.tasks@ }
    }
}

impl DispatchTable {
    /// The lookup by interrupt source agrees with the tasks' bindings.
    pub closed spec fn indexed(&self) -> bool {
        &&& self.by_source.len() <= 0x1_0000
        &&& forall|s: int|
            0 <= s < self.by_source.len() ==> match #[trigger] self.by_source[s] {
                Some(task) => self@.is_bound(task as int, s as u16),
                None => !self@.claimed(s as u16),
            }
        &&& forall|s: u16| self.by_source.len() <= s ==> !self@.claimed(s)
    }

    /// The table is one that a builder hands out.
    pub open spec fn wf(&self) -> bool {
        self@.wf() && self.indexed()
    }

    /// Builds the table from the task set, registering the declarations in
    /// order. The first declaration that cannot be registered gives the error.
    pub fn build(levels: u8, decls: &Vec<TaskDecl>) -> (res: Result<DispatchTable, ConfigError>)
        ensures
            match res {
                Ok(table) => {
                    &&& table.wf()
                    &&& table@ == (TableView { levels, tasks: decls@ })
                    &&& forall|i: int| 0 <= i < decls.len() ==> fault_at(levels, decls@, i).is_none()
                },
                Err(e) => exists|i: int|
                    {
                        &&& 0 <= i < decls.len()
                        &&& #[trigger] fault_at(levels, decls@, i) == Some(e)
                        &&& forall|j: int| 0 <= j < i ==> fault_at(levels, decls@, j).is_none()
                    },
            },
    {
        let mut builder = TableBuilder::new(levels);
        let mut i: usize = 0;
        assert(decls@.take(0) =~= Seq::empty());
        while i < decls.len()
            invariant
                0 <= i <= decls.len(),
                builder.wf(),
                builder@ == (TableView { levels, tasks: decls@.take(i as int) }),
                forall|j: int| 0 <= j < i ==> fault_at(levels, decls@, j).is_none(),
            decreases decls.len() - i,
        {
            match builder.register(decls[i]) {
                Ok(_) => {
                    assert(decls@.take(i as int).push(decls@[i as int]) == decls@.take(i + 1));
                },
                Err(e) => {
                    assert(fault_at(levels, decls@, i as int) == Some(e));
                    return Err(e);
                },
            }
            i += 1;
        }
        assert(decls@.take(i as int) == decls@);
        Ok(builder.finish())
    }

    /// The number of tasks.
    pub fn len(&self) -> (n: usize)
        ensures
            n == self@.tasks.len(),
    {
        self.tasks.len()
    }

    /// The number of priority levels above idle.
    pub fn levels(&self) -> (n: u8)
        ensures
            n == self@.levels,
    {
        self.levels
    }

    /// The declaration of a task.
    pub fn decl(&self, task: TaskId) -> (d: TaskDecl)
        requires
            self@.has_task(task as int),
        ensures
            d == self@.tasks[task as int],
    {
        self.tasks[task]
    }

    /// The static priority of a task.
    pub fn priority_of(&self, task: TaskId) -> (p: u8)
        requires
            self@.has_task(task as int),
        ensures
            p == self@.tasks[task as int].priority,
    {
        self.tasks[task].priority
    }

    /// The task bound to an interrupt source, if there is one.
    pub fn task_for_source(&self, source: u16) -> (res: Option<TaskId>)
        requires
            self.wf(),
        ensures
            match res {
                Some(task) => self@.is_bound(task as int, source),
                None => !self@.claimed(source),
            },
    {
        let s: usize = source as usize;
        if s < self.by_source.len() {
            self.by_source[s]
        } else {
            None
        }
    }

    /// The entry handle of the task bound to an interrupt source, if there is
    /// one.
    pub fn entry_for_source(&self, source: u16) -> (res: Option<u32>)
        requires
            self.wf(),
        ensures
            match res {
                Some(entry) => exists|task: int|
                    self@.is_bound(task, source) && self@.tasks[task].entry == entry,
                None => !self@.claimed(source),
            },
    {
        match self.task_for_source(source) {
            Some(task) => Some(self.tasks[task].entry),
            None => None,
        }
    }
}

/// Registers the task set, one declaration at a time, and hands out the
/// finished table.
pub struct TableBuilder {
    table: DispatchTable,
}

impl View for TableBuilder {
    type V = TableView;

    closed spec fn view(&self) -> TableView {
        self.table@
    }
}

impl TableBuilder {
    /// The tasks registered so far make a well-formed table.
    pub closed spec fn wf(&self) -> bool {
        self.table.wf()
    }

    /// A builder with no task yet, for hardware with `levels` priority levels
    /// above idle.
    pub fn new(levels: u8) -> (builder: TableBuilder)
        ensures
            builder.wf(),
            builder@ == (TableView { levels, tasks: Seq::empty() }),
    {
        TableBuilder { table: DispatchTable { levels, tasks: Vec::new(), by_source: Vec::new() } }
    }

    /// Registers a task and gives its identity. A declaration with a fault is
    /// refused, and the builder stays as it was.
    pub fn register(&mut self, decl: TaskDecl) -> (res: Result<TaskId, ConfigError>)
        requires
            old(self).wf(),
        ensures
            final(self).wf(),
            match res {
                Ok(task) => {
                    &&& old(self)@.fault(decl).is_none()
                    &&& task == old(self)@.tasks.len()
                    &&& final(self)@ == old(self)@.with(decl)
                },
                Err(e) => {
                    &&& old(self)@.fault(decl) == Some(e)
                    &&& final(self)@ == old(self)@
                },
            },
    {
        let task: usize = self.table.tasks.len();
        if decl.priority == 0 || decl.priority > self.table.levels {
            return Err(ConfigError::PriorityOutOfRange { task, priority: decl.priority });
        }
        match decl.binding {
            Binding::Interrupt { source } => {
                if self.table.task_for_source(source).is_some() {
                    return Err(ConfigError::DuplicateSource { task, source });
                }
                let s: usize = source as usize;
                while self.table.by_source.len() <= s
                    invariant
                        s == source,
                        self.table.wf(),
                        self.table@ == old(self).table@,
                        !self.table@.claimed(source),
                    decreases s + 1 - self.table.by_source.len(),
                {
                    let ghost before = self.table;
                    self.table.by_source.push(None);
                    assert forall|k: int| 0 <= k < self.table.by_source.len() implies match #[trigger] self.table.by_source[k] {
                        Some(t) => self.table@.is_bound(t as int, k as u16),
                        None => !self.table@.claimed(k as u16),
                    } by {
                        if k < before.by_source.len() {
                            assert(self.table.by_source[k] == before.by_source[k]);
                        } else {
                            assert(before.by_source.len() <= k as u16);
                        }
                    }
                }
                let ghost before = self.table;
                self.table.by_source.set(s, Some(task));
                self.table.tasks.push(decl);
                proof {
                    lemma_register_keeps_bindings(before@, decl);
                    assert(self.table@ == before@.with(decl));
                    assert forall|far: u16| self.table.by_source.len() <= far implies !self.table@.claimed(
                        far,
                    ) by {
                        assert(!before@.claimed(far));
                    }
                    assert forall|k: int| 0 <= k < self.table.by_source.len() implies match #[trigger] self.table.by_source[k] {
                        Some(t) => self.table@.is_bound(t as int, k as u16),
                        None => !self.table@.claimed(k as u16),
                    } by {
                        if k != s {
                            assert(self.table.by_source[k] == before.by_source[k]);
                        }
                    }
                }
            },
            Binding::Software { .. } => {
                let ghost before = self.table;
                self.table.tasks.push(decl);
                proof {
                    lemma_register_keeps_bindings(before@, decl);
                    assert(self.table@ == before@.with(decl));
                    assert forall|far: u16| self.table.by_source.len() <= far implies !self.table@.claimed(
                        far,
                    ) by {
                        assert(!before@.claimed(far));
                    }
                    assert forall|k: int| 0 <= k < self.table.by_source.len() implies match #[trigger] self.table.by_source[k] {
                        Some(t) => self.table@.is_bound(t as int, k as u16),
                        None => !self.table@.claimed(k as u16),
                    } by {
                        assert(self.table.by_source[k] == before.by_source[k]);
                    }
                }
            },
        }
        Ok(task)
    }

    /// Ends the registration. The table that comes out is read-only.
    pub fn finish(self) -> (table: DispatchTable)
        requires
            self.wf(),
        ensures
            table.wf(),
            table@ == self@,
    {
        self.table
    }
}

/// Registering a declaration without a fault keeps the table well formed, and
/// changes which task an interrupt source is bound to only for the source
/// that the new task claims.
pub proof fn lemma_register_keeps_bindings(table: TableView, decl: TaskDecl)
    requires
        table.wf(),
        table.fault(decl).is_none(),
    ensures
        table.with(decl).wf(),
        forall|task: int, source: u16|
            table.with(decl).is_bound(task, source) <==> table.is_bound(task, source) || (task
                == table.tasks.len() && decl.binding == (Binding::Interrupt { source })),
        forall|source: u16|
            table.with(decl).claimed(source) <==> table.claimed(source) || decl.binding == (
            Binding::Interrupt { source }),
{
    let after = table.with(decl);
    let n = table.tasks.len() as int;
    assert forall|task: int, source: u16| after.is_bound(task, source) <==> table.is_bound(
        task,
        source,
    ) || (task == n && decl.binding == (Binding::Interrupt { source })) by {
        if 0 <= task < n {
            assert(after.tasks[task] == table.tasks[task]);
        }
    }
    assert forall|source: u16| after.claimed(source) <==> table.claimed(source) || decl.binding == (
    Binding::Interrupt { source }) by {
        if after.claimed(source) {
            let t = choose|t: int| after.is_bound(t, source);
            assert(table.is_bound(t, source) || decl.binding == (Binding::Interrupt { source }));
        }
        if table.claimed(source) {
            let t = choose|t: int| table.is_bound(t, source);
            assert(after.is_bound(t, source));
        }
        if decl.binding == (Binding::Interrupt { source }) {
            assert(after.is_bound(n, source));
        }
    }
    assert forall|task: int| after.has_task(task) implies 1 <= (#[trigger] after.tasks[task]).priority
        <= after.levels by {
        if task < n {
            assert(after.tasks[task] == table.tasks[task]);
        }
    }
    assert forall|t1: int, t2: int, source: u16|
        after.is_bound(t1, source) && after.is_bound(t2, source) implies t1 == t2 by {
        if t1 == n || t2 == n {
            if t1 != t2 {
                let other = if t1 == n { t2 } else { t1 };
                assert(table.is_bound(other, source));
                assert(table.claimed(source));
            }
        }
    }
}

} // verus!
