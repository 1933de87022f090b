//! The task records the terminal front end renders.

use neex::tui::{TaskStatus, TuiTask};

#[test]
fn tui_task_starts_pending() {
    let t = TuiTask::new(&"web:build".to_string());
    assert_eq!(t.name, "web:build");
    assert!(matches!(t.status, TaskStatus::Pending));
    assert!(t.logs.is_empty());
}

#[test]
fn tui_statuses_carry_their_data() {
    assert_eq!(TaskStatus::Completed(100), TaskStatus::Completed(100));
    assert_ne!(TaskStatus::Cached(50), TaskStatus::Completed(50));
    match TaskStatus::Failed("boom".to_string()) {
        TaskStatus::Failed(msg) => assert_eq!(msg, "boom"),
        _ => unreachable!(),
    }
}
