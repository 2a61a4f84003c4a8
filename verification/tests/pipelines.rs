use std::str::FromStr;
use std::sync::Arc;

use ficus_backend::pipelines::activities::UndefActivityHandlingStrategyDto;

use ficus_backend::petri_net::IdGenerator;
use ficus_backend::pipelines::context::PipelineContext;
use ficus_backend::pipelines::context_keys::{ContextKeys, EVENT_LOG};
use ficus_backend::user_data::{DefaultKey, UserData};

#[test]
fn context_keys_are_found_by_name() {
    let keys = ContextKeys::new();
    assert_eq!(keys.len(), 28);
    assert!(keys.find_key("path").is_some());
    assert!(keys.find_key("colors_holder").is_some());
    assert!(keys.find_key("min_activity_length").is_none());
    let event_log = keys.find_key(EVENT_LOG).unwrap();
    assert_eq!(event_log.key().name(), "event_log");
    assert!(keys.is_event_log(keys.event_log()));
    assert!(!keys.is_event_log(keys.path()));
    assert!(keys.find_key("no such key").is_none());
}

#[test]
fn context_gives_back_what_was_put() {
    let types = Arc::new(Box::new(ContextKeys::new()));
    let mut context: PipelineContext<i32> = PipelineContext::new(&types);
    assert_eq!(context.types().len(), 28);
    let key = context.types().event_log().key().clone_key();
    assert!(context.get_concrete(&key).is_none());
    context.put_concrete(&key, 5);
    assert_eq!(context.get_concrete(&key), Some(&5));
    context.put_any(&key, 7);
    assert_eq!(context.get_any(&key), Some(&7));
    let other = context.types().path().key().clone_key();
    assert!(context.get_any(&other).is_none());
}

#[test]
fn user_data_put_get_remove() {
    let mut ids = IdGenerator::new();
    let first = DefaultKey::new("first".to_string(), &mut ids);
    let second = DefaultKey::new("second".to_string(), &mut ids);
    let mut data: UserData<String> = UserData::new();
    data.put(&first, "one".to_string());
    data.put(&second, "two".to_string());
    data.put(&first, "uno".to_string());
    assert_eq!(data.get(&first), Some(&"uno".to_string()));
    data.remove(&first);
    assert!(data.get(&first).is_none());
    assert_eq!(data.get_concrete(&second), Some(&"two".to_string()));
}

#[test]
fn undefined_activity_strategies_parse_by_name() {
    assert_eq!(UndefActivityHandlingStrategyDto::from_str("DontInsert"), Ok(UndefActivityHandlingStrategyDto::DontInsert));
    assert_eq!(
        UndefActivityHandlingStrategyDto::from_str("InsertAsSingleEvent"),
        Ok(UndefActivityHandlingStrategyDto::InsertAsSingleEvent)
    );
    assert_eq!(UndefActivityHandlingStrategyDto::parse("InsertAllEvents"), Ok(UndefActivityHandlingStrategyDto::InsertAllEvents));
    assert_eq!(UndefActivityHandlingStrategyDto::parse("insertallevents"), Err(()));
    assert_eq!(UndefActivityHandlingStrategyDto::parse(""), Err(()));
}
