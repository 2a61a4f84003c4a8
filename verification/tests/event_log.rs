use ficus_backend::class_set::ClassSet;
use ficus_backend::event_log::{filter_log_by_name, filter_log_by_names, EventLog};
use ficus_backend::event_log_info::EventLogInfo;

fn names(traces: &[&[&str]]) -> Vec<Vec<String>> {
    traces.iter().map(|t| t.iter().map(|s| s.to_string()).collect()).collect()
}

#[test]
fn log_round_trips_through_names() {
    let n = names(&[&["a", "b"], &["c"], &[]]);
    let log = EventLog::from_names(&n);
    assert_eq!(log.traces_count(), 3);
    assert_eq!(log.to_names(), n);
}

#[test]
fn filter_by_name_removes_every_event_of_the_class() {
    let mut log = EventLog::from_names(&names(&[&["a", "b", "a", "c"], &["a"], &["b"]]));
    filter_log_by_name(&mut log, "a");
    assert_eq!(log.to_names(), names(&[&["b", "c"], &[], &["b"]]));
}

#[test]
fn filter_by_name_twice_changes_nothing_more() {
    let mut once = EventLog::from_names(&names(&[&["a", "b", "a", "c"], &["c", "a"]]));
    filter_log_by_name(&mut once, "a");
    let mut twice = once.clone_log();
    filter_log_by_name(&mut twice, "a");
    assert_eq!(once.to_names(), twice.to_names());
}

#[test]
fn filter_by_names_removes_each_named_class() {
    let mut log = EventLog::from_names(&names(&[&["a", "b", "c", "d"], &["d", "d"]]));
    let mut set = ClassSet::new();
    set.insert("b".to_string());
    set.insert("d".to_string());
    filter_log_by_names(&mut log, &set);
    assert_eq!(log.to_names(), names(&[&["a", "c"], &[]]));
    let mut again = log.clone_log();
    filter_log_by_names(&mut again, &set);
    assert_eq!(again.to_names(), log.to_names());
}

#[test]
fn log_info_counts_events_classes_and_successions() {
    let log = EventLog::from_names(&names(&[&["a", "b", "c"], &["a", "c", "b", "a"]]));
    let info = EventLogInfo::create_from(&log);
    assert_eq!(info.events_count(), 7);
    assert_eq!(info.traces_count(), 2);
    assert_eq!(info.event_classes_count(), 3);
    assert_eq!(info.event_count("a"), 3);
    assert_eq!(info.event_count("z"), 0);
    let dfg = info.dfg_info();
    assert_eq!(dfg.get_directly_follows_count("a", "b"), 1);
    assert_eq!(dfg.get_directly_follows_count("b", "a"), 1);
    assert_eq!(dfg.get_directly_follows_count("a", "c"), 1);
    assert!(dfg.is_in_directly_follows_relation("c", "b"));
    assert!(!dfg.is_in_directly_follows_relation("c", "a"));
    assert!(info.start_event_classes().contains("a"));
    assert_eq!(info.start_event_classes().len(), 1);
    assert!(info.end_event_classes().contains("c"));
    assert!(info.end_event_classes().contains("a"));
    assert_eq!(info.end_event_classes().len(), 2);
}

#[test]
fn log_info_can_ignore_classes() {
    let log = EventLog::from_names(&names(&[&["a", "b", "c"]]));
    let mut ignored = ClassSet::new();
    ignored.insert("b".to_string());
    let info = EventLogInfo::create_from_ignoring(&log, &ignored);
    assert_eq!(info.event_count("b"), 0);
    assert_eq!(info.events_count(), 2);
    assert!(info.dfg_info().is_in_directly_follows_relation("a", "c"));
}
