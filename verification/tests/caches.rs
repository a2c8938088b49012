use star::handlers::{handle_probe_request, handle_status};
use star::resource::{Resource, ResourceStore, Response};
use star::json::Json;
use star::status::StatusCache;

fn urls(list: &[&str]) -> Vec<String> {
    list.iter().map(|s| s.to_string()).collect()
}

#[test]
fn new_cache_knows_every_target_as_unreachable() {
    let cache = StatusCache::new(&urls(&["http://a/status", "http://b/status"]));
    let snapshot = cache.poll();
    assert_eq!(snapshot.targets.len(), 2);
    assert_eq!(snapshot.targets[0].url, "http://a/status");
    assert!(!snapshot.targets[0].reachable);
    assert_eq!(snapshot.targets[1].url, "http://b/status");
    assert!(!snapshot.targets[1].reachable);
}

#[test]
fn one_tick_with_mixed_outcomes() {
    // One dispatch round: the first target accepts its connection, the
    // second refuses it.
    let mut cache = StatusCache::new(&urls(&["http://a/status", "http://b/status"]));
    cache.reachable("http://a/status".to_string());
    cache.unreachable("http://b/status".to_string());
    let snapshot = cache.poll();
    assert_eq!(snapshot.targets[0].url, "http://a/status");
    assert!(snapshot.targets[0].reachable);
    assert_eq!(snapshot.targets[1].url, "http://b/status");
    assert!(!snapshot.targets[1].reachable);
}

#[test]
fn snapshot_keeps_a_key_for_every_target_after_a_round() {
    let mut cache = StatusCache::new(&urls(&["a", "b", "c"]));
    cache.reachable("a".to_string());
    cache.unreachable("b".to_string());
    cache.reachable("c".to_string());
    let snapshot = cache.poll();
    let mut seen: Vec<String> = snapshot.targets.iter().map(|t| t.url.clone()).collect();
    seen.sort();
    assert_eq!(seen, vec!["a".to_string(), "b".to_string(), "c".to_string()]);
}

#[test]
fn recording_twice_equals_recording_once() {
    let mut once = StatusCache::new(&urls(&["a", "b"]));
    once.reachable("a".to_string());
    let mut twice = StatusCache::new(&urls(&["a", "b"]));
    twice.reachable("a".to_string());
    twice.reachable("a".to_string());
    let s1 = once.poll();
    let s2 = twice.poll();
    assert_eq!(s1.targets.len(), s2.targets.len());
    for (t1, t2) in s1.targets.iter().zip(s2.targets.iter()) {
        assert_eq!(t1.url, t2.url);
        assert_eq!(t1.reachable, t2.reachable);
    }
}

#[test]
fn last_write_wins_per_target() {
    let mut cache = StatusCache::new(&urls(&["a"]));
    cache.reachable("a".to_string());
    cache.unreachable("a".to_string());
    let snapshot = cache.poll();
    assert!(!snapshot.targets[0].reachable);
    cache.unreachable("a".to_string());
    cache.reachable("a".to_string());
    let snapshot = cache.poll();
    assert!(snapshot.targets[0].reachable);
}

#[test]
fn recording_an_unknown_target_adds_it() {
    // A record is unconditional and never fails: an absent target is
    // recorded implicitly by key presence.
    let mut cache = StatusCache::new(&urls(&["a"]));
    cache.reachable("newcomer".to_string());
    let snapshot = cache.poll();
    assert_eq!(snapshot.targets.len(), 2);
    assert_eq!(snapshot.targets[0].url, "a");
    assert!(!snapshot.targets[0].reachable);
    assert_eq!(snapshot.targets[1].url, "newcomer");
    assert!(snapshot.targets[1].reachable);
}

#[test]
fn duplicate_configured_urls_collapse_to_one_target() {
    let cache = StatusCache::new(&urls(&["a", "a", "b"]));
    let snapshot = cache.poll();
    assert_eq!(snapshot.targets.len(), 2);
}

#[test]
fn status_document_lists_every_target() {
    let mut cache = StatusCache::new(&urls(&["http://a/status", "http://b/status"]));
    cache.reachable("http://a/status".to_string());
    cache.unreachable("http://b/status".to_string());
    let r = handle_status(&cache);
    assert_eq!(r.status, 200);
    assert_eq!(r.content_type, "application/json");
    assert_eq!(
        r.body,
        "{\"status\":{\"targets\":[\
         {\"url\":\"http://a/status\",\"reachable\":true},\
         {\"url\":\"http://b/status\",\"reachable\":false}]}}"
    );
}

#[test]
fn probe_surface_serves_status_and_nothing_else() {
    let cache = StatusCache::new(&urls(&["a"]));
    let ok = handle_probe_request(&cache, "GET", "/status");
    assert_eq!(ok.status, 200);
    let wrong_path = handle_probe_request(&cache, "GET", "/else");
    assert_eq!(wrong_path.status, 404);
    assert_eq!(wrong_path.body, "");
    let wrong_method = handle_probe_request(&cache, "POST", "/status");
    assert_eq!(wrong_method.status, 404);
    assert_eq!(wrong_method.body, "");
}

#[test]
fn store_registers_resources_without_observations() {
    let store = ResourceStore::new(vec![
        Resource { id: "a".to_string(), url: "http://a".to_string() },
        Resource { id: "b".to_string(), url: "http://b".to_string() },
    ]);
    let entries = store.responses();
    assert_eq!(entries.len(), 2);
    assert!(entries.iter().all(|e| e.1.is_none()));
}

#[test]
fn saving_a_response_overwrites_in_place() {
    let mut store = ResourceStore::new(vec![Resource {
        id: "a".to_string(),
        url: "http://a".to_string(),
    }]);
    store.save_response(
        Resource { id: "a".to_string(), url: "http://a".to_string() },
        Some(Response {
            url: "http://a".to_string(),
            status_code: 200,
            json: Json::Bool(true),
        }),
    );
    let entries = store.responses();
    assert_eq!(entries.len(), 1);
    let resp = entries[0].1.as_ref().expect("an observation was recorded");
    assert_eq!(resp.status_code, 200);
    assert!(matches!(resp.json, Json::Bool(true)));
}

#[test]
fn saving_twice_keeps_only_the_second_observation() {
    let key = || Resource { id: "a".to_string(), url: "http://a".to_string() };
    let obs = |code: u16| {
        Some(Response { url: "http://a".to_string(), status_code: code, json: Json::Null })
    };
    let mut store = ResourceStore::new(vec![key()]);
    store.save_response(key(), obs(200));
    store.save_response(key(), obs(503));
    let entries = store.responses();
    assert_eq!(entries.len(), 1);
    assert_eq!(entries[0].1.as_ref().unwrap().status_code, 503);
}

#[test]
fn added_resource_appears_verbatim_in_the_listing() {
    let mut store = ResourceStore::new(Vec::new());
    store.save_resource(Resource { id: "C".to_string(), url: "http://c/status".to_string() });
    let listing = store.resources();
    assert_eq!(listing.len(), 1);
    assert_eq!(listing[0].id, "C");
    assert_eq!(listing[0].url, "http://c/status");
}

#[test]
fn saving_the_same_observation_twice_equals_saving_it_once() {
    let key = || Resource { id: "a".to_string(), url: "http://a".to_string() };
    let obs = || {
        Some(Response { url: "http://a".to_string(), status_code: 200, json: Json::Int(7) })
    };
    let mut once = ResourceStore::new(vec![key()]);
    once.save_response(key(), obs());
    let mut twice = ResourceStore::new(vec![key()]);
    twice.save_response(key(), obs());
    twice.save_response(key(), obs());
    let e1 = once.responses();
    let e2 = twice.responses();
    assert_eq!(e1.len(), e2.len());
    assert_eq!(e1[0].0.id, e2[0].0.id);
    assert_eq!(
        e1[0].1.as_ref().unwrap().status_code,
        e2[0].1.as_ref().unwrap().status_code
    );
}

#[test]
fn resources_with_equal_ids_but_different_urls_are_distinct_keys() {
    let mut store = ResourceStore::new(Vec::new());
    store.save_resource(Resource { id: "a".to_string(), url: "http://a1".to_string() });
    store.save_resource(Resource { id: "a".to_string(), url: "http://a2".to_string() });
    assert_eq!(store.resources().len(), 2);
}
