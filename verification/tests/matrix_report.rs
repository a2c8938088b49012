use star::handlers::{handle_responses, handle_responses_example};
use star::json::Json;
use star::matrix::{example_timer_set, TimerSet};

#[test]
fn a_new_matrix_reports_nothing() {
    let ts = TimerSet::new();
    let report = ts.resources(1000);
    assert!(report.is_empty());
    let r = handle_responses(&ts, 1000);
    assert_eq!(r.status, 200);
    assert_eq!(r.body, "{\"responses\":{}}");
}

#[test]
fn a_recorded_edge_is_reported_with_its_age() {
    let mut ts = TimerSet::new();
    ts.push("A".to_string(), "B".to_string(), 100);
    let r = handle_responses(&ts, 3700);
    assert_eq!(r.status, 200);
    assert_eq!(r.content_type, "application/json");
    assert_eq!(
        r.body,
        "{\"responses\":{\"A\":{\"url\":\"A\",\"statusCode\":200,\
         \"json\":{\"status\":{\"targets\":[{\"reachable\":3600,\"url\":\"B\"}]}}}}}"
    );
}

#[test]
fn a_stale_edge_stays_present_and_reads_as_stale() {
    // The edge was last confirmed a full hour before the query.
    let now: i64 = 50_000;
    let mut ts = TimerSet::new();
    ts.push("A".to_string(), "B".to_string(), now - 3600);
    // Any consumer-side cutoff below one hour reads the edge as stale...
    let report = ts.resources(now);
    assert_eq!(report.len(), 1);
    assert_eq!(report[0].0.id, "A");
    let response = report[0].1.as_ref().expect("the source has a report");
    let age = first_reported_age(&response.json);
    assert_eq!(age, 3600);
    assert!(age >= 600);
    // ...and the edge itself is not deleted by reporting: a second
    // query still sees it.
    let again = ts.resources(now + 10);
    assert_eq!(again.len(), 1);
    assert_eq!(first_reported_age(&again[0].1.as_ref().unwrap().json), 3610);
}

#[test]
fn a_newer_report_refreshes_the_edge() {
    let mut ts = TimerSet::new();
    ts.push("A".to_string(), "B".to_string(), 100);
    ts.push("A".to_string(), "B".to_string(), 200);
    let report = ts.resources(250);
    assert_eq!(first_reported_age(&report[0].1.as_ref().unwrap().json), 50);
}

#[test]
fn distinct_edges_do_not_disturb_each_other() {
    let mut ts = TimerSet::new();
    ts.push("A".to_string(), "B".to_string(), 100);
    ts.push("A".to_string(), "C".to_string(), 150);
    ts.push("B".to_string(), "A".to_string(), 120);
    let report = ts.resources(200);
    assert_eq!(report.len(), 2);
    assert_eq!(report[0].0.id, "A");
    assert_eq!(report[1].0.id, "B");
    let a_ages = reported_ages(&report[0].1.as_ref().unwrap().json);
    assert_eq!(a_ages, vec![100, 50]);
    let b_ages = reported_ages(&report[1].1.as_ref().unwrap().json);
    assert_eq!(b_ages, vec![80]);
}

#[test]
fn the_example_report_is_fresh_and_fully_connected() {
    let now: i64 = 1_000_000;
    let ts = example_timer_set(now);
    let report = ts.resources(now);
    assert_eq!(report.len(), 5);
    let names = ["A", "B", "C", "D", "E"];
    for (i, entry) in report.iter().enumerate() {
        assert_eq!(entry.0.id, names[i]);
        let ages = reported_ages(&entry.1.as_ref().unwrap().json);
        assert_eq!(ages.len(), 4);
        for age in ages {
            assert!(0 <= age && age < 5, "example ages lie within the last five seconds");
        }
    }
    let r = handle_responses_example(now);
    assert_eq!(r.status, 200);
    assert_eq!(r.content_type, "application/json");
}

/// The ages listed in one source's report document.
fn reported_ages(json: &Json) -> Vec<i64> {
    let status = match json {
        Json::Obj(pairs) => &pairs[0].1,
        _ => panic!("report is an object"),
    };
    let targets = match status {
        Json::Obj(pairs) => &pairs[0].1,
        _ => panic!("status is an object"),
    };
    let items = match targets {
        Json::Arr(items) => items,
        _ => panic!("targets is an array"),
    };
    items
        .iter()
        .map(|item| match item {
            Json::Obj(pairs) => match pairs[0].1 {
                Json::Int(age) => age,
                _ => panic!("reachable is a number"),
            },
            _ => panic!("target entries are objects"),
        })
        .collect()
}

fn first_reported_age(json: &Json) -> i64 {
    reported_ages(json)[0]
}
