use ficus_backend::alpha::alpha::{discover_petri_net_alpha, discover_petri_net_alpha_plus, find_transitions_one_length_loop};
use ficus_backend::alpha::provider::{AlphaPlusRelationsProvider, AlphaRelationsProvider, DefaultAlphaRelationsProvider};
use ficus_backend::alpha::relations_cache::RelationsCache;
use ficus_backend::annotations::annotate_with_counts;
use ficus_backend::event_log::EventLog;
use ficus_backend::event_log_info::EventLogInfo;
use ficus_backend::replay::replay_petri_net;

fn names(traces: &[&[&str]]) -> Vec<Vec<String>> {
    traces.iter().map(|t| t.iter().map(|s| s.to_string()).collect()).collect()
}

fn parallel_log() -> EventLog {
    EventLog::from_names(&names(&[&["a", "b", "c", "d"], &["a", "c", "b", "d"]]))
}

#[test]
fn footprint_of_a_parallel_split() {
    let log = parallel_log();
    let info = EventLogInfo::create_from(&log);
    let provider = DefaultAlphaRelationsProvider::new(info.dfg_info());
    assert!(provider.is_in_causal_relation("a", "b"));
    assert!(provider.is_in_causal_relation("c", "d"));
    assert!(!provider.is_in_causal_relation("b", "a"));
    assert!(provider.is_in_parallel_relation("b", "c"));
    assert!(provider.is_in_parallel_relation("c", "b"));
    assert!(provider.is_in_unrelated_relation("a", "d"));
    assert!(provider.is_in_direct_relation("b", "d"));
    let classes = ["a", "b", "c", "d"];
    for x in classes {
        for y in classes {
            let relations = [
                provider.is_in_causal_relation(x, y),
                provider.is_in_causal_relation(y, x),
                provider.is_in_parallel_relation(x, y),
                provider.is_in_unrelated_relation(x, y),
            ];
            assert_eq!(relations.iter().filter(|r| **r).count(), 1, "{} {}", x, y);
        }
    }
}

#[test]
fn alpha_net_of_a_parallel_split() {
    let log = parallel_log();
    let info = EventLogInfo::create_from(&log);
    let net = discover_petri_net_alpha(&info);
    assert_eq!(net.all_transitions().len(), 4);
    assert_eq!(net.all_places().len(), 6);
    for name in ["a", "b", "c", "d"] {
        assert!(net.find_transition_by_name(name).is_some());
    }
    assert!(net.initial_marking().is_some());
    assert!(net.final_marking().is_some());
}

#[test]
fn alpha_net_replays_its_log() {
    let log = parallel_log();
    let info = EventLogInfo::create_from(&log);
    let net = discover_petri_net_alpha(&info);
    assert!(replay_petri_net(&log, &net));
    let skipping = EventLog::from_names(&names(&[&["a", "b", "d"]]));
    assert!(!replay_petri_net(&skipping, &net));
    let unknown = EventLog::from_names(&names(&[&["a", "x", "c", "d"]]));
    assert!(!replay_petri_net(&unknown, &net));
    let empty = EventLog::empty();
    assert!(replay_petri_net(&empty, &net));
}

#[test]
fn annotation_counts_each_arc_once_per_trace() {
    let log = parallel_log();
    let info = EventLogInfo::create_from(&log);
    let net = discover_petri_net_alpha(&info);
    let counts = annotate_with_counts(&log, &net).unwrap();
    assert_eq!(counts.len(), 10);
    assert!(counts.values().all(|c| *c == 2));
    let skipping = EventLog::from_names(&names(&[&["a", "b", "d"]]));
    assert!(annotate_with_counts(&skipping, &net).is_none());
}

#[test]
fn one_length_loops_are_found() {
    let log = EventLog::from_names(&names(&[&["a", "b", "b", "c"], &["a", "c"]]));
    let loops = find_transitions_one_length_loop(&log);
    assert_eq!(loops.len(), 1);
    assert!(loops.contains("b"));
}

#[test]
fn alpha_plus_adds_a_transition_for_a_one_length_loop() {
    let log = EventLog::from_names(&names(&[&["a", "b", "b", "c"], &["a", "c"], &["a", "b", "c"]]));
    let net = discover_petri_net_alpha_plus(&log);
    assert_eq!(net.all_transitions().len(), 3);
    assert!(net.find_transition_by_name("b").is_some());
}

#[test]
fn relations_cache_keeps_the_first_value() {
    let mut cache = RelationsCache::empty();
    assert!(cache.try_get("a", "b").is_none());
    cache.put("a", "b", true);
    cache.put("a", "b", false);
    assert_eq!(cache.try_get("a", "b"), Some(&true));
    assert!(cache.try_get("b", "a").is_none());
}

#[test]
fn text_forms_of_triples_and_extended_sets() {
    use_text_forms();
}

fn use_text_forms() {
    let triple = ficus_backend::alpha::alpha_plus_plus_nfc::AlphaPlusPlusNfcTriple::new("a".to_string(), "b".to_string(), "c".to_string());
    assert_eq!(triple.to_string(), "({a}, {b}, {c})");
    let set = ficus_backend::alpha::alpha_set::AlphaSet::new("a".to_string(), vec!["c".to_string(), "b".to_string()]);
    assert_eq!(set.to_string(), "[{a} {b,c}]");
    let extended = ficus_backend::alpha::alpha_plus_plus_nfc::ExtendedAlphaSet::new_without_extensions(set);
    assert_eq!(extended.to_string(), "([{a} {b,c}])");
}

#[test]
fn alpha_plus_footprint_of_a_length_two_loop() {
    let log = parallel_log_with_loop();
    let info = EventLogInfo::create_from(&log);
    let provider = AlphaPlusRelationsProvider::new(info.dfg_info(), &log);
    assert!(provider.is_in_triangle_relation("b", "c"));
    assert!(provider.is_in_triangle_relation("c", "b"));
    assert!(provider.is_in_romb_relation("b", "c"));
    assert!(provider.is_in_romb_relation("c", "b"));
    assert!(provider.is_in_causal_relation("b", "c"));
    assert!(provider.is_in_causal_relation("c", "b"));
    assert!(!provider.is_in_parallel_relation("b", "c"));
    assert!(provider.is_in_causal_relation("a", "b"));
    assert!(provider.is_in_unrelated_relation("a", "d"));
}

fn parallel_log_with_loop() -> EventLog {
    EventLog::from_names(&names(&[&["a", "b", "c", "b", "c", "d"], &["a", "c", "b", "c", "d"]]))
}

#[test]
fn alpha_merges_the_places_of_a_choice() {
    let log = EventLog::from_names(&names(&[&["a", "b", "d"], &["a", "c", "d"]]));
    let info = EventLogInfo::create_from(&log);
    let net = discover_petri_net_alpha(&info);
    assert_eq!(net.all_transitions().len(), 4);
    let mut place_names: Vec<String> = net.all_places().iter().map(|p| p.name().clone()).collect();
    place_names.sort();
    assert_eq!(place_names, vec!["EmptyPlace", "EmptyPlace", "[{a} {b,c}]", "[{b,c} {d}]"]);
}
