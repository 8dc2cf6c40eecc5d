use e4code::change_tracker::ChangeTracker;
use e4code::debounce::{Arm, DebounceScheduler};
use std::collections::HashSet;

#[test]
fn tracker_marks_edited_range() {
    let mut t = ChangeTracker::new();
    assert!(!t.has_changes());
    t.record_edit(2, 4);
    assert!(t.has_changes());
    t.record_deletion(3, 3);
    let lines = t.take_changed_lines();
    assert_eq!(lines, HashSet::from([2, 3, 4]));
    assert!(!t.has_changes());
    assert!(t.take_changed_lines().is_empty());
}

#[test]
fn tracker_empty_range_and_extremes() {
    let mut t = ChangeTracker::new();
    t.record_edit(5, 3);
    assert!(!t.has_changes());
    t.record_edit(i32::MAX - 1, i32::MAX);
    assert_eq!(t.take_changed_lines(), HashSet::from([i32::MAX - 1, i32::MAX]));
}

#[test]
fn tracker_records_insertion() {
    let mut t = ChangeTracker::new();
    t.record_insertion(1, 4, 2, "ab\nc");
    assert_eq!(t.last_inserted_text, "ab\nc");
    assert_eq!(t.last_insert_position, Some((1, 4)));
    assert_eq!(t.changed_lines, HashSet::from([1, 2]));
}

#[test]
fn debounce_burst_runs_one_pass() {
    let mut d = DebounceScheduler::new();
    assert_eq!(d.on_edit(), Some(Arm { cancel: None, token: 0 }));
    assert_eq!(d.on_edit(), Some(Arm { cancel: Some(0), token: 1 }));
    assert_eq!(d.on_edit(), Some(Arm { cancel: Some(1), token: 2 }));
    assert!(d.is_pending());
    let runs = [0u64, 1, 2, 2].iter().filter(|&&t| d.on_fire(t)).count();
    assert_eq!(runs, 1);
    assert!(!d.is_pending());
}

#[test]
fn debounce_closed_document_is_noop() {
    let mut d = DebounceScheduler::new();
    let arm = d.on_edit().unwrap();
    assert_eq!(d.close(), Some(arm.token));
    assert!(!d.on_fire(arm.token));
    assert_eq!(d.on_edit(), None);
}
