use parallel_code::plans::{plan_file_name, PlanDebouncer};

#[test]
fn debounce_drops_events_within_a_second() {
    let mut d = PlanDebouncer::new();
    assert!(d.accept(true, 5));
    assert!(!d.accept(true, 900));
    assert!(d.accept(true, 1005));
    assert!(!d.accept(false, 5000));
    assert!(d.accept(true, 5000));
}

#[test]
fn irrelevant_event_does_not_reset_debounce() {
    let mut d = PlanDebouncer::new();
    assert!(!d.accept(false, 0));
    assert!(d.accept(true, 10));
}

#[test]
fn only_markdown_files_are_plans() {
    assert_eq!(plan_file_name(b"/w/plans/step.md"), Some("step.md".to_string()));
    assert_eq!(plan_file_name(b"/w/plans/notes.txt"), None);
    assert_eq!(plan_file_name(b"/w/plans/.md"), None);
    assert_eq!(plan_file_name(b"plan.md"), Some("plan.md".to_string()));
}
