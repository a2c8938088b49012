use star::assets::{bundled_asset_table, guess_content_type};
use star::decode::{parse_hits, parse_resource, parse_resources};
use star::handlers::{
    handle_asset, handle_collect_request, handle_index, handle_post_hits, handle_post_resources,
    handle_resources,
};
use star::matrix::TimerSet;
use star::resource::ResourceStore;
use star::routes::{route, Route};

#[test]
fn routes_name_each_operation() {
    assert!(matches!(route("GET", "/status"), Route::GetStatus));
    assert!(matches!(route("GET", "/resources"), Route::GetResources));
    assert!(matches!(route("POST", "/resources"), Route::PostResources));
    assert!(matches!(route("GET", "/responses"), Route::GetResponses));
    assert!(matches!(
        route("GET", "/responses/example"),
        Route::GetResponsesExample
    ));
    assert!(matches!(route("POST", "/hits"), Route::PostHits));
    assert!(matches!(route("GET", "/"), Route::GetIndex));
    assert!(matches!(route("GET", "/?node=A"), Route::GetIndex));
    assert!(matches!(route("DELETE", "/status"), Route::NotFound));
    assert!(matches!(route("POST", "/status"), Route::NotFound));
    assert!(matches!(route("GET", "/nowhere"), Route::NotFound));
}

#[test]
fn asset_routes_strip_traversal_segments() {
    match route("GET", "/assets/js/arbor.js") {
        Route::GetAsset(name) => assert_eq!(name, "js/arbor.js"),
        _ => panic!("expected an asset route"),
    }
    match route("GET", "/assets/../../etc/passwd") {
        Route::GetAsset(name) => assert_eq!(name, "//etc/passwd"),
        _ => panic!("expected an asset route"),
    }
}

#[test]
fn content_types_follow_the_extension() {
    assert_eq!(guess_content_type(&"site.css".to_string()), "text/css");
    assert_eq!(
        guess_content_type(&"js/arbor.js".to_string()),
        "application/javascript"
    );
    assert_eq!(guess_content_type(&"index.html".to_string()), "text/html");
    assert_eq!(guess_content_type(&"notes.txt".to_string()), "text/plain");
}

fn table() -> star::assets::AssetTable {
    bundled_asset_table(
        "<html>index</html>".to_string(),
        "var arbor;".to_string(),
        "var tween;".to_string(),
        "var jquery;".to_string(),
    )
}

#[test]
fn assets_are_served_with_their_content_type() {
    let t = table();
    let r = handle_asset(&t, &"js/arbor.js".to_string());
    assert_eq!(r.status, 200);
    assert_eq!(r.content_type, "application/javascript");
    assert_eq!(r.body, "var arbor;");
    let r = handle_index(&t);
    assert_eq!(r.status, 200);
    assert_eq!(r.content_type, "text/html");
    assert_eq!(r.body, "<html>index</html>");
    let r = handle_asset(&t, &"missing.css".to_string());
    assert_eq!(r.status, 404);
}

#[test]
fn posting_a_resource_echoes_it_and_lists_it() {
    let mut store = ResourceStore::new(Vec::new());
    let r = handle_post_resources(&mut store, "{\"id\":\"C\",\"url\":\"http://c/status\"}");
    assert_eq!(r.status, 201);
    assert_eq!(r.content_type, "application/json");
    assert_eq!(r.body, "{\"id\":\"C\",\"url\":\"http://c/status\"}");
    let listing = handle_resources(&store);
    assert_eq!(listing.status, 200);
    assert_eq!(
        listing.body,
        "{\"resources\":[{\"id\":\"C\",\"url\":\"http://c/status\"}]}"
    );
}

#[test]
fn posting_malformed_json_changes_nothing() {
    let mut store = ResourceStore::new(Vec::new());
    let r = handle_post_resources(&mut store, "{oops");
    assert_eq!(r.status, 400);
    assert_eq!(r.content_type, "text/plain");
    assert_eq!(r.body, "malformed JSON at offset 1");
    let listing = handle_resources(&store);
    assert_eq!(listing.body, "{\"resources\":[]}");
}

#[test]
fn posting_the_wrong_shape_changes_nothing() {
    let mut store = ResourceStore::new(Vec::new());
    let r = handle_post_resources(&mut store, "{\"id\":\"C\"}");
    assert_eq!(r.status, 400);
    assert_eq!(r.body, "JSON value does not have the expected shape");
    assert_eq!(handle_resources(&store).body, "{\"resources\":[]}");
}

#[test]
fn parse_resource_reads_fields_in_any_order() {
    let r = parse_resource(" { \"url\" : \"u\" , \"id\" : \"i\" } ").unwrap();
    assert_eq!(r.id, "i");
    assert_eq!(r.url, "u");
    assert!(parse_resource("[1]").is_err());
    assert!(parse_resource("{\"id\":1,\"url\":\"u\"}").is_err());
}

#[test]
fn parse_hits_reads_a_batch() {
    let hs = parse_hits(
        "[{\"src\":\"A\",\"dst\":\"B\",\"time\":50},{\"src\":\"B\",\"dst\":\"A\",\"time\":60}]",
    )
    .unwrap();
    assert_eq!(hs.len(), 2);
    assert_eq!(hs[0].src, "A");
    assert_eq!(hs[0].dst, "B");
    assert_eq!(hs[0].time, 50);
    assert_eq!(hs[1].src, "B");
    assert!(parse_hits("{\"src\":\"A\"}").is_err());
    assert!(parse_hits("[{\"src\":\"A\",\"dst\":\"B\"}]").is_err());
    assert!(parse_hits("[{\"src\":\"A\",\"dst\":\"B\",\"time\":\"x\"}]").is_err());
}

#[test]
fn posting_hits_records_edges_and_echoes_the_batch() {
    let mut ts = TimerSet::new();
    let body = "[{\"src\":\"A\",\"dst\":\"B\",\"time\":50}]";
    let r = handle_post_hits(&mut ts, body);
    assert_eq!(r.status, 200);
    assert_eq!(r.content_type, "application/json");
    assert_eq!(r.body, "[{\"src\":\"A\",\"dst\":\"B\",\"time\":50}]");
    let report = ts.resources(60);
    assert_eq!(report.len(), 1);
    assert_eq!(report[0].0.id, "A");
}

#[test]
fn posting_malformed_hits_changes_nothing() {
    let mut ts = TimerSet::new();
    let r = handle_post_hits(&mut ts, "[{]");
    assert_eq!(r.status, 400);
    assert!(r.body.starts_with("malformed JSON"));
    assert!(ts.resources(0).is_empty());
}

#[test]
fn the_collect_surface_dispatches_by_route() {
    let mut ts = TimerSet::new();
    let mut store = ResourceStore::new(Vec::new());
    let t = table();
    let now: i64 = 1000;

    let r = handle_collect_request(
        &mut ts,
        &mut store,
        &t,
        "POST",
        "/hits",
        "[{\"src\":\"A\",\"dst\":\"B\",\"time\":900}]",
        now,
    );
    assert_eq!(r.status, 200);

    let r = handle_collect_request(&mut ts, &mut store, &t, "GET", "/responses", "", now);
    assert_eq!(r.status, 200);
    assert_eq!(
        r.body,
        "{\"responses\":{\"A\":{\"url\":\"A\",\"statusCode\":200,\
         \"json\":{\"status\":{\"targets\":[{\"reachable\":100,\"url\":\"B\"}]}}}}}"
    );

    let r = handle_collect_request(
        &mut ts,
        &mut store,
        &t,
        "POST",
        "/resources",
        "{\"id\":\"C\",\"url\":\"http://c\"}",
        now,
    );
    assert_eq!(r.status, 201);

    let r = handle_collect_request(&mut ts, &mut store, &t, "GET", "/resources", "", now);
    assert_eq!(r.status, 200);
    assert_eq!(r.body, "{\"resources\":[{\"id\":\"C\",\"url\":\"http://c\"}]}");

    let r = handle_collect_request(&mut ts, &mut store, &t, "GET", "/", "", now);
    assert_eq!(r.status, 200);
    assert_eq!(r.body, "<html>index</html>");

    let r = handle_collect_request(&mut ts, &mut store, &t, "GET", "/assets/js/arbor.js", "", now);
    assert_eq!(r.status, 200);
    assert_eq!(r.body, "var arbor;");

    let r = handle_collect_request(&mut ts, &mut store, &t, "GET", "/responses/example", "", now);
    assert_eq!(r.status, 200);

    let r = handle_collect_request(&mut ts, &mut store, &t, "GET", "/nowhere", "", now);
    assert_eq!(r.status, 404);
    assert_eq!(r.body, "");

    let r = handle_collect_request(&mut ts, &mut store, &t, "GET", "/status", "", now);
    assert_eq!(r.status, 404);
}

#[test]
fn traversal_stripping_handles_stacked_dots() {
    match route("GET", "/assets/....css") {
        Route::GetAsset(name) => assert_eq!(name, "css"),
        _ => panic!("expected an asset route"),
    }
    match route("GET", "/assets/a..b") {
        Route::GetAsset(name) => assert_eq!(name, "ab"),
        _ => panic!("expected an asset route"),
    }
}

#[test]
fn parse_resources_reads_an_initial_set() {
    let rs = parse_resources(
        "[{\"id\":\"a\",\"url\":\"http://a\"},{\"id\":\"b\",\"url\":\"http://b\"}]",
    )
    .unwrap();
    assert_eq!(rs.len(), 2);
    assert_eq!(rs[0].id, "a");
    assert_eq!(rs[0].url, "http://a");
    assert_eq!(rs[1].id, "b");
    assert!(parse_resources("[]").unwrap().is_empty());
    assert!(parse_resources("{\"id\":\"a\"}").is_err());
    assert!(parse_resources("[{\"id\":\"a\"}]").is_err());
    assert!(parse_resources("[oops").is_err());
}
