use docsy::operations::{OperationOutcome, OperationRegistry};

#[test]
fn test_begin_and_cancel() {
    let mut manager = OperationRegistry::new();
    manager.begin("op-1", "test_command", 0);
    assert!(!manager.is_cancelled("op-1"));
    assert!(manager.cancel("op-1"));
    assert!(manager.is_cancelled("op-1"));
}

#[test]
fn test_cancel_nonexistent() {
    let mut manager = OperationRegistry::new();
    assert!(!manager.cancel("nonexistent"));
}

#[test]
fn test_finish_removes_entry() {
    let mut manager = OperationRegistry::new();
    manager.begin("op-1", "test_command", 0);
    assert_eq!(manager.list_active(0).len(), 1);
    manager.finish("op-1", false, 5);
    assert_eq!(manager.list_active(5).len(), 0);
    assert!(!manager.is_cancelled("op-1"));
}

#[test]
fn test_cancel_all() {
    let mut manager = OperationRegistry::new();
    manager.begin("op-1", "cmd1", 0);
    manager.begin("op-2", "cmd2", 0);
    manager.cancel_all();
    assert!(manager.is_cancelled("op-1"));
    assert!(manager.is_cancelled("op-2"));
}

#[test]
fn test_multiple_operations_independent() {
    let mut manager = OperationRegistry::new();
    manager.begin("op-1", "cmd1", 0);
    manager.begin("op-2", "cmd2", 0);
    manager.cancel("op-1");
    assert!(manager.is_cancelled("op-1"));
    assert!(!manager.is_cancelled("op-2"));
}

#[test]
fn test_list_active() {
    let mut manager = OperationRegistry::new();
    assert!(manager.list_active(0).is_empty());
    manager.begin("op-1", "cmd1", 0);
    manager.begin("op-2", "cmd2", 0);
    let active = manager.list_active(0);
    assert_eq!(active.len(), 2);
    let ids: Vec<&str> = active.iter().map(|a| a.operation_id.as_str()).collect();
    assert!(ids.contains(&"op-1"));
    assert!(ids.contains(&"op-2"));
}

#[test]
fn test_cancel_is_idempotent() {
    let mut manager = OperationRegistry::new();
    manager.begin("op-1", "cmd1", 0);
    assert!(manager.cancel("op-1"));
    assert!(manager.cancel("op-1"));
}

#[test]
fn finished_operations_report_how_they_ended() {
    let mut manager = OperationRegistry::new();
    manager.begin("a", "compress", 100);
    manager.begin("b", "merge", 200);
    manager.begin("c", "split", 300);
    manager.cancel("a");
    let a = manager.finish("a", true, 150).unwrap();
    assert_eq!(a.outcome, OperationOutcome::Cancelled);
    assert_eq!(a.elapsed_ms, 50);
    assert_eq!(a.command, "compress");
    let b = manager.finish("b", true, 260).unwrap();
    assert_eq!(b.outcome, OperationOutcome::Failed);
    assert_eq!(b.elapsed_ms, 60);
    let c = manager.finish("c", false, 250).unwrap();
    assert_eq!(c.outcome, OperationOutcome::Completed);
    assert_eq!(c.elapsed_ms, 0);
    assert!(manager.finish("c", false, 400).is_none());
    assert!(!manager.contains("a"));
}

#[test]
fn beginning_again_replaces_the_entry() {
    let mut manager = OperationRegistry::new();
    manager.begin("op", "first", 10);
    manager.cancel("op");
    manager.begin("op", "second", 20);
    assert!(!manager.is_cancelled("op"));
    let active = manager.list_active(25);
    assert_eq!(active.len(), 1);
    assert_eq!(active[0].command, "second");
    assert_eq!(active[0].elapsed_ms, 5);
}
