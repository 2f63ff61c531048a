use cctl_api::cache::deploy_stream_key;
use cctl_api::cache::event_stream_key;
use cctl_api::cache::get_deploys;
use cctl_api::cache::get_events;
use cctl_api::cache::listen_to_sse;
use cctl_api::cache::search_deploys;
use cctl_api::cache::search_events;
use cctl_api::cache::SseCache;
use cctl_api::registry::StreamRegistry;
use cctl_api::store::BoundedEventStore;

#[test]
fn store_eviction_keeps_most_recent() {
    let mut store = BoundedEventStore::new(3);
    store.append("a".to_string());
    store.append("b".to_string());
    store.append("c".to_string());
    store.append("d".to_string());
    assert_eq!(store.snapshot(), vec!["b".to_string(), "c".to_string(), "d".to_string()]);
}

#[test]
fn store_find_literal_substring() {
    let mut store = BoundedEventStore::new(3);
    store.append("a".to_string());
    store.append("b".to_string());
    store.append("c".to_string());
    store.append("d".to_string());
    assert_eq!(store.find("c"), vec!["c".to_string()]);
    assert_eq!(store.find("z"), Vec::<String>::new());
}

#[test]
fn store_long_run_keeps_capacity_most_recent() {
    let mut store = BoundedEventStore::new(2);
    for i in 1..=5 {
        store.append(format!("event-{}", i));
    }
    assert_eq!(store.snapshot(), vec!["event-4".to_string(), "event-5".to_string()]);
}

#[test]
fn store_two_appends_either_order() {
    let mut first = BoundedEventStore::new(2);
    first.append("x".to_string());
    first.append("y".to_string());
    assert_eq!(first.snapshot(), vec!["x".to_string(), "y".to_string()]);

    let mut second = BoundedEventStore::new(2);
    second.append("y".to_string());
    second.append("x".to_string());
    assert_eq!(second.snapshot(), vec!["y".to_string(), "x".to_string()]);
}

#[test]
fn store_capacity_zero_stays_empty() {
    let mut store = BoundedEventStore::new(0);
    store.append("a".to_string());
    assert_eq!(store.snapshot(), Vec::<String>::new());
}

#[test]
fn get_data_unregistered_returns_absent() {
    let cache = SseCache::new(1000);
    assert_eq!(cache.get_data(&"unregistered-key".to_string()), None);
}

#[test]
fn search_unregistered_returns_absent() {
    let cache = SseCache::new(1000);
    assert_eq!(cache.search(&"unregistered-key".to_string(), "q"), None);
}

#[test]
fn start_listening_twice_keeps_one_listener() {
    let mut cache = SseCache::new(10);
    let key = "k1".to_string();
    cache.start_listening(key.clone());
    cache.start_listening(key.clone());
    assert!(cache.is_listening(&key));
    assert_eq!(cache.listener_entry_count(&key), 1);
    assert_eq!(cache.get_data(&key), Some(Vec::<String>::new()));
}

#[test]
fn registry_register_twice_keeps_one_entry() {
    let mut registry = StreamRegistry::new();
    let key = "k1".to_string();
    let first = registry.register(&key);
    let second = registry.register(&key);
    assert!(first);
    assert!(!second);
    assert!(registry.is_active(&key));
    assert_eq!(registry.entry_count(&key), 1);
}

#[test]
fn append_then_read_through_cache() {
    let mut cache = SseCache::new(2);
    let key = "stream".to_string();
    cache.start_listening(key.clone());
    assert!(cache.append_event(&key, "alpha one".to_string()));
    assert!(cache.append_event(&key, "beta two".to_string()));
    assert!(cache.append_event(&key, "alpha three".to_string()));
    assert_eq!(
        cache.get_data(&key),
        Some(vec!["beta two".to_string(), "alpha three".to_string()])
    );
    assert_eq!(cache.search(&key, "alpha"), Some(vec!["alpha three".to_string()]));
    assert_eq!(cache.search(&key, "nothing"), Some(Vec::<String>::new()));
}

#[test]
fn append_event_unregistered_is_noop() {
    let mut cache = SseCache::new(2);
    assert!(!cache.append_event(&"missing".to_string(), "payload".to_string()));
    assert_eq!(cache.get_data(&"missing".to_string()), None);
}

#[test]
fn stream_keys_follow_convention() {
    assert_eq!(event_stream_key(3), "http://localhost/node-3/sse/events/main");
    assert_eq!(deploy_stream_key(12), "http://localhost/node-12/sse/events/deploys");
}

#[test]
fn listen_to_sse_registers_both_streams_per_node() {
    let mut cache = SseCache::new(1000);
    listen_to_sse(&mut cache, 2);
    for n in 1..=2 {
        let events = event_stream_key(n);
        let deploys = deploy_stream_key(n);
        assert!(cache.is_listening(&events));
        assert!(cache.is_listening(&deploys));
        assert_eq!(cache.get_data(&events), Some(Vec::<String>::new()));
        assert_eq!(cache.get_data(&deploys), Some(Vec::<String>::new()));
    }
    assert_eq!(cache.get_data(&event_stream_key(3)), None);
}

#[test]
fn node_routes_read_the_right_stream() {
    let mut cache = SseCache::new(10);
    listen_to_sse(&mut cache, 1);
    cache.append_event(&event_stream_key(1), "block 7 added".to_string());
    cache.append_event(&deploy_stream_key(1), "deploy accepted".to_string());
    assert_eq!(get_events(&cache, 1), Some(vec!["block 7 added".to_string()]));
    assert_eq!(get_deploys(&cache, 1), Some(vec!["deploy accepted".to_string()]));
    assert_eq!(search_events(&cache, 1, "block"), Some(vec!["block 7 added".to_string()]));
    assert_eq!(search_events(&cache, 1, "deploy"), Some(Vec::<String>::new()));
    assert_eq!(search_deploys(&cache, 1, "accepted"), Some(vec!["deploy accepted".to_string()]));
    assert_eq!(get_events(&cache, 2), None);
    assert_eq!(search_deploys(&cache, 2, "x"), None);
}
