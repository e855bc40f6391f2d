use filepressor::progress::{check_gate, progress_due, record_read, Gate};
use filepressor::tasks::{admit_task, is_cancelled, task_error};

#[test]
fn finished_tasks() {
    let e = task_error("__cancelled__".to_string());
    assert!(e.cancelled);
    assert_eq!(e.message, "Operation cancelled");
    let e = task_error("disk full".to_string());
    assert!(!e.cancelled);
    assert_eq!(e.message, "disk full");
    assert!(is_cancelled("__cancelled__"));
    assert!(!is_cancelled("cancelled"));
}

#[test]
fn admitting_tasks() {
    assert_eq!(admit_task(true, true), (Err("Another task is already running".to_string()), true));
    assert_eq!(admit_task(false, false), (Err("No files selected".to_string()), false));
    assert_eq!(admit_task(false, true), (Ok(()), true));
}

#[test]
fn gates() {
    assert_eq!(check_gate(true, false), Gate::Abort);
    // a cancel during a pause wins and aborts
    assert_eq!(check_gate(true, true), Gate::Abort);
    assert_eq!(check_gate(false, true), Gate::Wait);
    assert_eq!(check_gate(false, false), Gate::Go);
}

#[test]
fn read_reports() {
    let (mut cur, mut last) = (0u64, 0u64);
    assert!(!record_read(&mut cur, &mut last, 10_000_000, 1000, 5));
    assert_eq!((cur, last), (1000, 0));
    assert!(record_read(&mut cur, &mut last, 10_000_000, 1000, 150));
    assert_eq!((cur, last), (2000, 2000));
    assert!(record_read(&mut cur, &mut last, 10_000_000, 2_097_152, 0));
    assert_eq!(last, cur);
    assert!(!record_read(&mut cur, &mut last, 10, 0, 500));
    let (mut cur, mut last) = (5u64, 0u64);
    assert!(record_read(&mut cur, &mut last, 8, 3, 0));
    assert!(progress_due(100, 0, 10));
    assert!(progress_due(0, 10, 10));
    assert!(!progress_due(99, 9, 10));
}
