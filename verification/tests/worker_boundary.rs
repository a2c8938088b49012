use star::handlers::{fetch_outcome, record_fetch, record_probe};
use star::json::Json;
use star::resource::{Resource, ResourceStore};
use star::serial::{PeerSerializer, ResponseSerializer, StatusSerializer, TargetSerializer};
use star::status::{Peer, Status, StatusCache, Target};

fn res(id: &str, url: &str) -> Resource {
    Resource { id: id.to_string(), url: url.to_string() }
}

#[test]
fn a_successful_fetch_becomes_an_observation() {
    let obs = fetch_outcome(&res("a", "http://a"), Some((200, "{\"x\": 1}".to_string())));
    let resp = obs.expect("a JSON body is recorded");
    assert_eq!(resp.url, "http://a");
    assert_eq!(resp.status_code, 200);
    assert!(matches!(resp.json, Json::Obj(_)));
}

#[test]
fn failures_become_absent_observations() {
    // A failed fetch and a non-JSON body are both first-class absences,
    // not errors.
    assert!(fetch_outcome(&res("a", "http://a"), None).is_none());
    assert!(fetch_outcome(&res("a", "http://a"), Some((200, "<html>".to_string()))).is_none());
}

#[test]
fn record_fetch_overwrites_the_previous_observation() {
    let mut store = ResourceStore::new(vec![res("a", "http://a")]);
    record_fetch(&mut store, res("a", "http://a"), Some((200, "true".to_string())));
    let entries = store.responses();
    assert!(matches!(entries[0].1.as_ref().unwrap().json, Json::Bool(true)));
    // The next round's failure replaces the old success.
    record_fetch(&mut store, res("a", "http://a"), None);
    let entries = store.responses();
    assert!(entries[0].1.is_none());
}

#[test]
fn single_value_serializers_write_their_documents() {
    let target = Target { url: "http://a".to_string(), reachable: true };
    assert_eq!(
        TargetSerializer.serialize(&target, false),
        "{\"url\":\"http://a\",\"reachable\":true}"
    );
    assert_eq!(
        TargetSerializer.serialize(&target, true),
        "{\"target\":{\"url\":\"http://a\",\"reachable\":true}}"
    );
    let peer = Peer { url: "http://b".to_string(), reachable: false };
    assert_eq!(
        PeerSerializer.serialize(&peer, true),
        "{\"peer\":{\"url\":\"http://b\",\"reachable\":false}}"
    );
    let status = Status { targets: vec![target] };
    assert_eq!(
        StatusSerializer.serialize(&status, false),
        "{\"targets\":[{\"url\":\"http://a\",\"reachable\":true}]}"
    );
    let response = star::resource::Response {
        url: "http://a".to_string(),
        status_code: 503,
        json: Json::Null,
    };
    assert_eq!(
        ResponseSerializer.serialize(&response),
        "{\"url\":\"http://a\",\"statusCode\":503,\"json\":null}"
    );
}

#[test]
fn record_probe_stores_both_outcomes() {
    let mut cache = StatusCache::new(&vec!["http://a".to_string()]);
    record_probe(&mut cache, "http://a".to_string(), true);
    assert!(cache.poll().targets[0].reachable);
    record_probe(&mut cache, "http://a".to_string(), false);
    assert!(!cache.poll().targets[0].reachable);
}
