use blong::clock::{MonotonicClock, Reading, WakeAction};
use blong::error::SpawnError;
use blong::lock::Shared;
use blong::queue::Invocation;
use blong::runtime::{Action, InterruptOutcome, Runtime};
use blong::table::{Binding, DispatchTable, TaskDecl};
use blong::tick::Tick;

const STARTUP: usize = 0;
const READER: usize = 1;
const WRITER: usize = 2;
const PERIODIC: usize = 3;
const LOGGER: usize = 4;
const MUTED: usize = 5;

const WRITER_SOURCE: u16 = 6;

fn software(priority: u8, capacity: usize) -> TaskDecl {
    TaskDecl { priority, binding: Binding::Software { capacity }, entry: 0 }
}

fn task_set() -> DispatchTable {
    let decls = vec![
        software(1, 1),
        software(1, 2),
        TaskDecl { priority: 2, binding: Binding::Interrupt { source: WRITER_SOURCE }, entry: 0 },
        software(3, 2),
        software(2, 3),
        software(1, 0),
    ];
    match DispatchTable::build(8, &decls) {
        Ok(t) => t,
        Err(e) => panic!("refused: {:?}", e),
    }
}

fn start_with(startup: usize) -> Result<Runtime, SpawnError> {
    let clock = match MonotonicClock::new(0x1_0000) {
        Ok(c) => c,
        Err(e) => panic!("refused: {:?}", e),
    };
    // resource 0 is shared by the reader and the writer
    let users: Vec<Vec<usize>> = vec![vec![READER, WRITER]];
    Runtime::start(task_set(), &users, clock, startup)
}

fn started() -> Runtime {
    match start_with(STARTUP) {
        Ok(rt) => rt,
        Err(e) => panic!("refused: {:?}", e),
    }
}

/// A runtime whose startup task has run and completed.
fn idle() -> Runtime {
    let mut rt = started();
    assert_eq!(rt.poll(), Action::Run(plain(STARTUP)));
    assert_eq!(rt.complete(), STARTUP);
    rt
}

fn plain(task: usize) -> Invocation {
    Invocation { task, payload: None }
}

fn with(task: usize, payload: u32) -> Invocation {
    Invocation { task, payload: Some(payload) }
}

fn reading(counter: u32) -> Reading {
    Reading { counter, overflow_pending: false }
}

#[test]
fn startup_task_runs_before_the_first_sleep() {
    let mut rt = started();
    assert_eq!(rt.pending_len(), 1);
    assert_eq!(rt.pending_at(0), plain(STARTUP));
    assert_eq!(rt.effective(), 0);
    assert_eq!(rt.current(), None);
    assert_eq!(rt.poll(), Action::Run(plain(STARTUP)));
    assert_eq!(rt.current(), Some(STARTUP));
    assert_eq!(rt.effective(), 1);
    assert_eq!(rt.poll(), Action::Resume(STARTUP));
    assert_eq!(rt.complete(), STARTUP);
    assert_eq!(rt.poll(), Action::Sleep);
}

#[test]
fn start_refuses_a_startup_task_without_a_slot() {
    match start_with(MUTED) {
        Ok(_) => panic!("accepted"),
        Err(e) => assert_eq!(e, SpawnError::QueueFull { task: MUTED }),
    }
}

#[test]
fn start_computes_the_ceilings() {
    let mut rt = idle();
    assert_eq!(rt.spawn(READER, None), Ok(()));
    assert_eq!(rt.poll(), Action::Run(plain(READER)));
    let g = rt.lock(0);
    assert_eq!(rt.effective(), 2);
    rt.unlock(g);
}

#[test]
fn idle_hook_runs_only_when_nothing_is_pending() {
    let mut rt = idle();
    // no event at all: the processor sleeps, and goes on sleeping
    assert_eq!(rt.pending_len(), 0);
    assert_eq!(rt.poll(), Action::Sleep);
    assert_eq!(rt.poll(), Action::Sleep);
    assert_eq!(rt.effective(), 0);
    // one interrupt flag: no sleep until its task has run
    assert_eq!(rt.interrupt(WRITER_SOURCE), InterruptOutcome::Latched(WRITER));
    assert_eq!(rt.poll(), Action::Run(plain(WRITER)));
    assert_eq!(rt.poll(), Action::Resume(WRITER));
    assert_eq!(rt.complete(), WRITER);
    assert_eq!(rt.poll(), Action::Sleep);
}

#[test]
fn the_most_urgent_ready_task_runs_first() {
    let mut rt = idle();
    assert_eq!(rt.spawn(READER, Some(1)), Ok(()));
    assert_eq!(rt.spawn(PERIODIC, Some(2)), Ok(()));
    assert_eq!(rt.spawn(LOGGER, Some(3)), Ok(()));
    assert_eq!(rt.poll(), Action::Run(with(PERIODIC, 2)));
    assert_eq!(rt.effective(), 3);
    assert_eq!(rt.poll(), Action::Resume(PERIODIC));
    assert_eq!(rt.complete(), PERIODIC);
    assert_eq!(rt.poll(), Action::Run(with(LOGGER, 3)));
    assert_eq!(rt.complete(), LOGGER);
    assert_eq!(rt.poll(), Action::Run(with(READER, 1)));
    assert_eq!(rt.complete(), READER);
    assert_eq!(rt.poll(), Action::Sleep);
}

#[test]
fn a_more_urgent_task_preempts_and_the_preempted_one_resumes() {
    let mut rt = idle();
    assert_eq!(rt.spawn(READER, None), Ok(()));
    assert_eq!(rt.poll(), Action::Run(plain(READER)));
    assert_eq!(rt.spawn(LOGGER, None), Ok(()));
    assert_eq!(rt.poll(), Action::Run(plain(LOGGER)));
    assert_eq!(rt.current(), Some(LOGGER));
    assert_eq!(rt.effective(), 2);
    assert_eq!(rt.spawn(PERIODIC, None), Ok(()));
    assert_eq!(rt.poll(), Action::Run(plain(PERIODIC)));
    assert_eq!(rt.effective(), 3);
    assert_eq!(rt.complete(), PERIODIC);
    assert_eq!(rt.effective(), 2);
    assert_eq!(rt.poll(), Action::Resume(LOGGER));
    assert_eq!(rt.complete(), LOGGER);
    assert_eq!(rt.effective(), 1);
    assert_eq!(rt.poll(), Action::Resume(READER));
    assert_eq!(rt.complete(), READER);
    assert_eq!(rt.effective(), 0);
    assert_eq!(rt.poll(), Action::Sleep);
}

#[test]
fn a_task_of_the_same_or_lower_priority_waits() {
    let mut rt = idle();
    assert_eq!(rt.spawn(LOGGER, Some(1)), Ok(()));
    assert_eq!(rt.poll(), Action::Run(with(LOGGER, 1)));
    assert_eq!(rt.interrupt(WRITER_SOURCE), InterruptOutcome::Latched(WRITER));
    assert_eq!(rt.spawn(READER, None), Ok(()));
    assert_eq!(rt.poll(), Action::Resume(LOGGER));
    assert_eq!(rt.pending_len(), 2);
    assert_eq!(rt.complete(), LOGGER);
    assert_eq!(rt.poll(), Action::Run(plain(WRITER)));
    assert_eq!(rt.complete(), WRITER);
    assert_eq!(rt.poll(), Action::Run(plain(READER)));
}

#[test]
fn spawn_beyond_the_capacity_is_refused_and_changes_nothing() {
    let mut rt = idle();
    assert_eq!(rt.spawn(LOGGER, Some(9)), Ok(()));
    assert_eq!(rt.spawn(READER, Some(1)), Ok(()));
    assert!(!rt.is_full(READER));
    assert_eq!(rt.spawn(READER, Some(2)), Ok(()));
    assert!(rt.is_full(READER));
    assert_eq!(rt.spawn(READER, Some(3)), Err(SpawnError::QueueFull { task: READER }));
    assert_eq!(rt.spawn(READER, None), Err(SpawnError::QueueFull { task: READER }));
    assert_eq!(rt.pending_len(), 3);
    assert_eq!(rt.pending_at(0), with(LOGGER, 9));
    assert_eq!(rt.pending_at(1), with(READER, 1));
    assert_eq!(rt.pending_at(2), with(READER, 2));
    assert_eq!(rt.effective(), 0);
    assert_eq!(rt.current(), None);
}

#[test]
fn a_slot_is_free_again_once_its_invocation_has_begun() {
    let mut rt = started();
    assert_eq!(rt.spawn(STARTUP, None), Err(SpawnError::QueueFull { task: STARTUP }));
    assert_eq!(rt.poll(), Action::Run(plain(STARTUP)));
    assert_eq!(rt.spawn(STARTUP, Some(5)), Ok(()));
    assert_eq!(rt.spawn(STARTUP, Some(6)), Err(SpawnError::QueueFull { task: STARTUP }));
}

#[test]
fn a_task_without_slots_is_never_queued() {
    let mut rt = idle();
    assert!(rt.is_full(MUTED));
    assert_eq!(rt.spawn(MUTED, None), Err(SpawnError::QueueFull { task: MUTED }));
    assert_eq!(rt.pending_len(), 0);
    assert_eq!(rt.poll(), Action::Sleep);
}

#[test]
fn invocations_of_equal_priority_run_in_the_order_of_arrival() {
    let mut rt = idle();
    assert_eq!(rt.spawn(READER, Some(1)), Ok(()));
    assert_eq!(rt.spawn(STARTUP, Some(2)), Ok(()));
    assert_eq!(rt.spawn(PERIODIC, Some(3)), Ok(()));
    assert_eq!(rt.spawn(READER, Some(4)), Ok(()));
    assert_eq!(rt.poll(), Action::Run(with(PERIODIC, 3)));
    assert_eq!(rt.complete(), PERIODIC);
    assert_eq!(rt.poll(), Action::Run(with(READER, 1)));
    assert_eq!(rt.complete(), READER);
    assert_eq!(rt.poll(), Action::Run(with(STARTUP, 2)));
    assert_eq!(rt.complete(), STARTUP);
    assert_eq!(rt.poll(), Action::Run(with(READER, 4)));
    assert_eq!(rt.complete(), READER);
    assert_eq!(rt.poll(), Action::Sleep);
}

#[test]
fn interrupt_and_spawn_of_equal_priority_run_in_the_order_of_arrival() {
    let mut rt = idle();
    assert_eq!(rt.spawn(LOGGER, Some(1)), Ok(()));
    assert_eq!(rt.interrupt(WRITER_SOURCE), InterruptOutcome::Latched(WRITER));
    assert_eq!(rt.spawn(LOGGER, Some(2)), Ok(()));
    assert_eq!(rt.poll(), Action::Run(with(LOGGER, 1)));
    assert_eq!(rt.complete(), LOGGER);
    assert_eq!(rt.poll(), Action::Run(plain(WRITER)));
    assert_eq!(rt.complete(), WRITER);
    assert_eq!(rt.poll(), Action::Run(with(LOGGER, 2)));
}

#[test]
fn interrupt_outcomes() {
    let mut rt = idle();
    assert_eq!(rt.interrupt(WRITER_SOURCE), InterruptOutcome::Latched(WRITER));
    assert_eq!(rt.interrupt(WRITER_SOURCE), InterruptOutcome::Coalesced(WRITER));
    assert_eq!(rt.pending_len(), 1);
    assert_eq!(rt.interrupt(7), InterruptOutcome::Unbound);
    assert_eq!(rt.interrupt(0), InterruptOutcome::Unbound);
    assert_eq!(rt.pending_len(), 1);
    assert_eq!(rt.poll(), Action::Run(plain(WRITER)));
    // the flag was cleared when the task began: the source can fire again
    assert_eq!(rt.interrupt(WRITER_SOURCE), InterruptOutcome::Latched(WRITER));
}

#[test]
fn reader_at_the_ceiling_is_not_preempted_by_the_writer() {
    let mut rt = idle();
    assert_eq!(rt.spawn(READER, None), Ok(()));
    assert_eq!(rt.poll(), Action::Run(plain(READER)));
    assert_eq!(rt.effective(), 1);
    assert_eq!(rt.locks_held(), 0);
    let guard = rt.lock(0);
    assert_eq!(rt.effective(), 2);
    assert_eq!(rt.locks_held(), 1);
    // the writer's hardware event arrives while the reader holds the resource
    assert_eq!(rt.interrupt(WRITER_SOURCE), InterruptOutcome::Latched(WRITER));
    assert_eq!(rt.poll(), Action::Resume(READER));
    assert_eq!(rt.current(), Some(READER));
    rt.unlock(guard);
    assert_eq!(rt.effective(), 1);
    assert_eq!(rt.locks_held(), 0);
    // released: now the writer runs
    assert_eq!(rt.poll(), Action::Run(plain(WRITER)));
    assert_eq!(rt.effective(), 2);
    assert_eq!(rt.complete(), WRITER);
    // and the reader's own code goes on at its own priority
    assert_eq!(rt.poll(), Action::Resume(READER));
    assert_eq!(rt.effective(), 1);
    assert_eq!(rt.complete(), READER);
    assert_eq!(rt.effective(), 0);
    assert_eq!(rt.poll(), Action::Sleep);
}

#[test]
fn a_task_above_the_ceiling_preempts_the_holder() {
    let mut rt = idle();
    assert_eq!(rt.spawn(READER, None), Ok(()));
    assert_eq!(rt.poll(), Action::Run(plain(READER)));
    let guard = rt.lock(0);
    assert_eq!(rt.spawn(PERIODIC, None), Ok(()));
    assert_eq!(rt.poll(), Action::Run(plain(PERIODIC)));
    assert_eq!(rt.effective(), 3);
    assert_eq!(rt.locks_held(), 0);
    assert_eq!(rt.complete(), PERIODIC);
    assert_eq!(rt.effective(), 2);
    assert_eq!(rt.locks_held(), 1);
    rt.unlock(guard);
    assert_eq!(rt.effective(), 1);
}

#[test]
fn nested_locks_in_a_task_restore_in_reverse_order() {
    let mut rt = idle();
    assert_eq!(rt.interrupt(WRITER_SOURCE), InterruptOutcome::Latched(WRITER));
    assert_eq!(rt.poll(), Action::Run(plain(WRITER)));
    let before: u8 = rt.effective();
    let outer = rt.lock(0);
    let inner = rt.lock(0);
    assert_eq!(rt.effective(), 2);
    assert_eq!(rt.locks_held(), 2);
    rt.unlock(inner);
    rt.unlock(outer);
    assert_eq!(rt.effective(), before);
    assert_eq!(rt.locks_held(), 0);
}

#[test]
fn timed_spawn_waits_for_its_tick() {
    let mut rt = idle();
    let now = rt.now(reading(100));
    assert_eq!(now, Tick(100));
    assert_eq!(rt.spawn_at(PERIODIC, Some(1), now.advance(50), reading(100)), Ok(WakeAction::Compare(150)));
    assert_eq!(rt.timers_len(), 1);
    assert_eq!(rt.pending_len(), 0);
    assert_eq!(rt.clock().wake(), Some(Tick(150)));
    assert_eq!(rt.poll(), Action::Sleep);
    assert_eq!(rt.on_timer(reading(149)), WakeAction::Compare(150));
    assert_eq!(rt.poll(), Action::Sleep);
    assert_eq!(rt.on_timer(reading(150)), WakeAction::Disarm);
    assert_eq!(rt.timers_len(), 0);
    assert_eq!(rt.clock().wake(), None);
    assert_eq!(rt.poll(), Action::Run(with(PERIODIC, 1)));
}

#[test]
fn timed_spawn_for_an_elapsed_tick_fires_at_once() {
    let mut rt = idle();
    assert_eq!(rt.spawn_at(READER, None, Tick(40), reading(100)), Ok(WakeAction::FireNow));
    assert_eq!(rt.on_timer(reading(100)), WakeAction::Disarm);
    assert_eq!(rt.poll(), Action::Run(plain(READER)));
}

#[test]
fn the_wake_is_armed_for_the_soonest_tick() {
    let mut rt = idle();
    let r = reading(100);
    assert_eq!(rt.spawn_at(LOGGER, Some(1), Tick(900), r), Ok(WakeAction::Compare(900)));
    assert_eq!(rt.spawn_at(LOGGER, Some(2), Tick(300), r), Ok(WakeAction::Compare(300)));
    assert_eq!(rt.spawn_at(LOGGER, Some(3), Tick(600), r), Ok(WakeAction::Compare(300)));
    assert_eq!(rt.clock().wake(), Some(Tick(300)));
    assert_eq!(rt.on_timer(reading(300)), WakeAction::Compare(600));
    assert_eq!(rt.pending_len(), 1);
    assert_eq!(rt.pending_at(0), with(LOGGER, 2));
    assert_eq!(rt.on_timer(reading(950)), WakeAction::Disarm);
    assert_eq!(rt.pending_len(), 3);
    // both became ready at one check: they keep the order of their spawn
    assert_eq!(rt.pending_at(1), with(LOGGER, 1));
    assert_eq!(rt.pending_at(2), with(LOGGER, 3));
    assert_eq!(rt.timers_len(), 0);
}

#[test]
fn timed_invocations_take_slots() {
    let mut rt = idle();
    let r = reading(0);
    assert_eq!(rt.spawn_at(READER, Some(1), Tick(500), r), Ok(WakeAction::Compare(500)));
    assert_eq!(rt.spawn(READER, Some(2)), Ok(()));
    assert_eq!(rt.spawn(READER, Some(3)), Err(SpawnError::QueueFull { task: READER }));
    assert_eq!(
        rt.spawn_at(READER, Some(4), Tick(700), r),
        Err(SpawnError::QueueFull { task: READER })
    );
    assert_eq!(rt.timers_len(), 1);
    assert_eq!(rt.pending_len(), 1);
    assert_eq!(rt.clock().wake(), Some(Tick(500)));
}

#[test]
fn periodic_task_fires_on_time_across_a_counter_wraparound() {
    let mut rt = idle();
    let start = reading(65_000);
    let at = rt.now(start).advance(1000);
    assert_eq!(at, Tick(66_000));
    assert_eq!(rt.spawn_at(PERIODIC, None, at, start), Ok(WakeAction::AwaitOverflow));
    // the counter is about to wrap: nothing fires a period early
    assert_eq!(rt.on_timer(reading(65_535)), WakeAction::AwaitOverflow);
    assert_eq!(rt.pending_len(), 0);
    // the overflow interrupt, 999 counts after the spawn
    let wrapped = Reading { counter: 463, overflow_pending: true };
    assert_eq!(rt.now(wrapped), Tick(65_999));
    assert_eq!(rt.on_timer(wrapped), WakeAction::Compare(464));
    assert_eq!(rt.now(reading(463)), Tick(65_999));
    assert_eq!(rt.pending_len(), 0);
    assert_eq!(rt.poll(), Action::Sleep);
    // the compare interrupt, 1000 counts after the spawn
    assert_eq!(rt.on_timer(reading(464)), WakeAction::Disarm);
    assert_eq!(rt.pending_len(), 1);
    assert_eq!(rt.poll(), Action::Run(plain(PERIODIC)));
}

#[test]
fn on_timer_takes_note_of_the_overflow_once() {
    let mut rt = idle();
    let wrapped = Reading { counter: 7, overflow_pending: true };
    assert_eq!(rt.on_timer(wrapped), WakeAction::Disarm);
    assert_eq!(rt.now(reading(7)), Tick(0x1_0000 + 7));
    assert_eq!(rt.on_timer(reading(8)), WakeAction::Disarm);
    assert_eq!(rt.now(reading(8)), Tick(0x1_0000 + 8));
}

#[test]
fn runtime_hands_out_its_table() {
    let rt = started();
    assert_eq!(rt.table().len(), 6);
    assert_eq!(rt.table().priority_of(PERIODIC), 3);
    assert_eq!(rt.table().task_for_source(WRITER_SOURCE), Some(WRITER));
}

#[test]
fn a_fault_ends_the_task_and_its_locks() {
    let mut rt = idle();
    assert_eq!(rt.spawn(READER, None), Ok(()));
    assert_eq!(rt.poll(), Action::Run(plain(READER)));
    assert_eq!(rt.interrupt(WRITER_SOURCE), InterruptOutcome::Latched(WRITER));
    assert_eq!(rt.poll(), Action::Run(plain(WRITER)));
    let outer = rt.lock(0);
    let inner = rt.lock(0);
    assert_eq!(rt.locks_held(), 2);
    assert!(rt.is_innermost(&inner));
    assert!(!rt.is_innermost(&outer));
    // the writer faults with both locks held
    assert_eq!(rt.abort(), WRITER);
    assert!(!rt.is_innermost(&inner));
    assert!(!rt.is_innermost(&outer));
    assert_eq!(rt.current(), Some(READER));
    assert_eq!(rt.effective(), 1);
    assert_eq!(rt.locks_held(), 0);
    assert_eq!(rt.poll(), Action::Resume(READER));
    assert_eq!(rt.abort(), READER);
    assert_eq!(rt.effective(), 0);
    assert_eq!(rt.current(), None);
    assert_eq!(rt.poll(), Action::Sleep);
}

#[test]
fn runtime_counts_its_resources() {
    let rt = started();
    assert_eq!(rt.resources(), 1);
    assert_eq!(rt.timers_len(), 0);
    assert_eq!(rt.clock().period(), 0x1_0000);
}

#[test]
fn only_a_task_at_or_below_the_ceiling_may_lock() {
    let mut rt = idle();
    // nothing runs: the idle routine touches no shared resource
    assert!(!rt.may_lock(0));
    assert_eq!(rt.ceiling(0), 2);
    assert_eq!(rt.spawn(READER, None), Ok(()));
    assert_eq!(rt.poll(), Action::Run(plain(READER)));
    assert!(rt.may_lock(0));
    assert!(!rt.may_lock(1));
    assert_eq!(rt.spawn(PERIODIC, None), Ok(()));
    assert_eq!(rt.poll(), Action::Run(plain(PERIODIC)));
    assert!(!rt.may_lock(0));
    assert_eq!(rt.complete(), PERIODIC);
    assert!(rt.may_lock(0));
}

#[test]
fn a_locked_resource_is_held_by_the_executing_task_alone() {
    let mut rt = idle();
    assert_eq!(rt.spawn(READER, None), Ok(()));
    assert_eq!(rt.poll(), Action::Run(plain(READER)));
    assert!(!rt.is_locked(0));
    let guard = rt.lock(0);
    assert!(rt.is_locked(0));
    // whatever preempts now is above the ceiling and may not lock
    assert_eq!(rt.interrupt(WRITER_SOURCE), InterruptOutcome::Latched(WRITER));
    assert_eq!(rt.spawn(PERIODIC, None), Ok(()));
    assert_eq!(rt.poll(), Action::Run(plain(PERIODIC)));
    assert!(rt.is_locked(0));
    assert!(!rt.may_lock(0));
    assert_eq!(rt.complete(), PERIODIC);
    assert_eq!(rt.poll(), Action::Resume(READER));
    rt.unlock(guard);
    assert!(!rt.is_locked(0));
    assert_eq!(rt.poll(), Action::Run(plain(WRITER)));
    assert!(rt.may_lock(0));
}

#[test]
fn shared_state_is_written_within_the_lock() {
    let mut rt = idle();
    let mut level = Shared::new(0, false);
    assert_eq!(rt.spawn(READER, None), Ok(()));
    assert_eq!(rt.poll(), Action::Run(plain(READER)));
    let guard = rt.lock(0);
    assert!(rt.locks().guards(&guard, level.resource()));
    *level.borrow_mut(rt.locks(), &guard) = true;
    assert!(*level.borrow(rt.locks(), &guard));
    rt.unlock(guard);
    assert_eq!(rt.locks().depth(), 1);
    assert_eq!(rt.complete(), READER);
    assert_eq!(rt.locks().depth(), 0);
}
