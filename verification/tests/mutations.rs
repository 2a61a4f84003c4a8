use ficus_backend::event_log::{Event, EventLog};
use ficus_backend::mutations::{filter_log_by_flags, filter_log_by_regex, LogRegex, rename_events, rename_events_by_flags, split_by_traces};

fn names(traces: &[&[&str]]) -> Vec<Vec<String>> {
    traces.iter().map(|t| t.iter().map(|s| s.to_string()).collect()).collect()
}

#[test]
fn rename_events_renames_the_accepted_ones() {
    let mut log = EventLog::from_names(&names(&[&["a", "b", "a"], &["c"]]));
    rename_events(&mut log, "x", |e: &Event| e.get_name() == "a");
    assert_eq!(log.to_names(), names(&[&["x", "b", "x"], &["c"]]));
}

#[test]
fn rename_by_flags() {
    let mut log = EventLog::from_names(&names(&[&["a", "b"], &["c"]]));
    rename_events_by_flags(&mut log, "y", &vec![vec![false, true], vec![true]]);
    assert_eq!(log.to_names(), names(&[&["a", "y"], &["y"]]));
}

#[test]
fn filter_by_flags() {
    let mut log = EventLog::from_names(&names(&[&["a", "b", "c"], &["d"]]));
    filter_log_by_flags(&mut log, &vec![vec![true, false, true], vec![false]]);
    assert_eq!(log.to_names(), names(&[&["b"], &["d"]]));
}

#[test]
fn filter_by_regex_removes_the_matching_events() {
    let mut log = EventLog::from_names(&names(&[&["ab", "b", "ac"], &["ba"]]));
    let regex = LogRegex::new("^a").unwrap();
    filter_log_by_regex(&mut log, &regex);
    assert_eq!(log.to_names(), names(&[&["b"], &["ba"]]));
}

#[test]
fn filter_by_regex_matches_anywhere_in_the_name() {
    let mut log = EventLog::from_names(&names(&[&["xay", "b"], &["a"]]));
    filter_log_by_regex(&mut log, &LogRegex::new("a").unwrap());
    assert_eq!(log.to_names(), names(&[&["b"], &[]]));
}

#[test]
fn invalid_pattern_is_refused() {
    assert!(LogRegex::new("(").is_err());
}

#[test]
fn split_groups_equal_traces() {
    let log = EventLog::from_names(&names(&[&["a", "b"], &["c"], &["a", "b"], &["c"], &["d"], &["a"]]));
    assert_eq!(split_by_traces(&log), vec![vec![0, 2], vec![1, 3], vec![4], vec![5]]);
    assert_eq!(split_by_traces(&EventLog::empty()), Vec::<Vec<usize>>::new());
}

#[test]
fn no_flags_change_nothing() {
    let n = names(&[&["a", "b"], &["c"], &[]]);
    let mut renamed = EventLog::from_names(&n);
    rename_events_by_flags(&mut renamed, "z", &vec![vec![false, false], vec![false], vec![]]);
    assert_eq!(renamed.to_names(), n);
    let mut filtered = EventLog::from_names(&n);
    filter_log_by_flags(&mut filtered, &vec![vec![false, false], vec![false], vec![]]);
    assert_eq!(filtered.to_names(), n);
}
