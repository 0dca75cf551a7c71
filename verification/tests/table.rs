use blong::error::ConfigError;
use blong::table::{Binding, DispatchTable, TableBuilder, TaskDecl};

fn software(priority: u8, capacity: usize) -> TaskDecl {
    TaskDecl { priority, binding: Binding::Software { capacity }, entry: 100 + priority as u32 }
}

fn bound(priority: u8, source: u16) -> TaskDecl {
    TaskDecl { priority, binding: Binding::Interrupt { source }, entry: 200 + source as u32 }
}

#[test]
fn register_hands_out_identities_in_order() {
    let mut b = TableBuilder::new(8);
    assert_eq!(b.register(software(1, 1)), Ok(0));
    assert_eq!(b.register(bound(2, 6)), Ok(1));
    assert_eq!(b.register(software(8, 4)), Ok(2));
    let table = b.finish();
    assert_eq!(table.len(), 3);
    assert_eq!(table.levels(), 8);
    assert_eq!(table.priority_of(0), 1);
    assert_eq!(table.priority_of(1), 2);
    assert_eq!(table.priority_of(2), 8);
    assert_eq!(table.decl(1), bound(2, 6));
}

#[test]
fn register_refuses_priority_zero() {
    let mut b = TableBuilder::new(8);
    assert_eq!(
        b.register(software(0, 1)),
        Err(ConfigError::PriorityOutOfRange { task: 0, priority: 0 })
    );
}

#[test]
fn register_refuses_a_priority_above_the_hardware_levels() {
    let mut b = TableBuilder::new(3);
    assert_eq!(b.register(software(3, 1)), Ok(0));
    assert_eq!(
        b.register(bound(4, 1)),
        Err(ConfigError::PriorityOutOfRange { task: 1, priority: 4 })
    );
}

#[test]
fn register_refuses_a_source_that_is_claimed() {
    let mut b = TableBuilder::new(8);
    assert_eq!(b.register(bound(1, 6)), Ok(0));
    assert_eq!(b.register(bound(2, 7)), Ok(1));
    assert_eq!(
        b.register(bound(3, 6)),
        Err(ConfigError::DuplicateSource { task: 2, source: 6 })
    );
}

#[test]
fn register_reports_the_priority_before_the_source() {
    let mut b = TableBuilder::new(2);
    assert_eq!(b.register(bound(1, 6)), Ok(0));
    assert_eq!(
        b.register(bound(9, 6)),
        Err(ConfigError::PriorityOutOfRange { task: 1, priority: 9 })
    );
}

#[test]
fn a_refused_registration_leaves_the_builder_as_it_was() {
    let mut b = TableBuilder::new(8);
    assert_eq!(b.register(bound(1, 6)), Ok(0));
    assert!(b.register(bound(2, 6)).is_err());
    assert!(b.register(software(0, 1)).is_err());
    assert_eq!(b.register(bound(2, 9)), Ok(1));
    let table = b.finish();
    assert_eq!(table.len(), 2);
    assert_eq!(table.task_for_source(6), Some(0));
    assert_eq!(table.task_for_source(9), Some(1));
}

#[test]
fn lookup_by_interrupt_source() {
    let mut b = TableBuilder::new(8);
    assert_eq!(b.register(software(1, 1)), Ok(0));
    assert_eq!(b.register(bound(2, 6)), Ok(1));
    assert_eq!(b.register(bound(3, 0)), Ok(2));
    assert_eq!(b.register(bound(3, u16::MAX)), Ok(3));
    let table = b.finish();
    assert_eq!(table.task_for_source(6), Some(1));
    assert_eq!(table.task_for_source(0), Some(2));
    assert_eq!(table.task_for_source(u16::MAX), Some(3));
    assert_eq!(table.task_for_source(5), None);
    assert_eq!(table.task_for_source(7), None);
    assert_eq!(table.entry_for_source(6), Some(206));
    assert_eq!(table.entry_for_source(0), Some(200));
    assert_eq!(table.entry_for_source(1), None);
}

#[test]
fn slots_of_a_declaration() {
    assert_eq!(software(1, 3).slots(), 3);
    assert_eq!(software(1, 0).slots(), 0);
    assert_eq!(bound(1, 4).slots(), 1);
}

#[test]
fn build_registers_every_declaration() {
    let decls = vec![software(1, 1), bound(2, 6), software(2, 2)];
    match DispatchTable::build(4, &decls) {
        Ok(table) => {
            assert_eq!(table.len(), 3);
            assert_eq!(table.levels(), 4);
            assert_eq!(table.decl(0), decls[0]);
            assert_eq!(table.decl(2), decls[2]);
            assert_eq!(table.task_for_source(6), Some(1));
        }
        Err(e) => panic!("refused: {:?}", e),
    }
}

#[test]
fn build_of_an_empty_task_set() {
    let decls: Vec<TaskDecl> = Vec::new();
    match DispatchTable::build(0, &decls) {
        Ok(table) => {
            assert_eq!(table.len(), 0);
            assert_eq!(table.task_for_source(0), None);
        }
        Err(e) => panic!("refused: {:?}", e),
    }
}

#[test]
fn build_reports_the_first_fault() {
    let decls = vec![bound(1, 6), bound(2, 6), software(0, 1)];
    match DispatchTable::build(8, &decls) {
        Ok(_) => panic!("accepted"),
        Err(e) => assert_eq!(e, ConfigError::DuplicateSource { task: 1, source: 6 }),
    }
    let decls = vec![bound(1, 6), software(5, 1), bound(2, 6)];
    match DispatchTable::build(4, &decls) {
        Ok(_) => panic!("accepted"),
        Err(e) => assert_eq!(e, ConfigError::PriorityOutOfRange { task: 1, priority: 5 }),
    }
}
