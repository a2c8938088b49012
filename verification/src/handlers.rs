//! The REST layer's request handlers: stateless functions over the result
//! caches whose responses — status code, content type and body — are
//! pinned exactly, and the worker-boundary function that turns a fetch
//! outcome into a recorded observation.

use vstd::prelude::*;
use crate::assets::{content_type_of, guess_content_type, AssetTable};
use crate::decode::{parse_hits, parse_resource, sp_decode_hits, sp_decode_resource};
use crate::json::{json_chars, Json, JsonRep};
use crate::matrix::{row_report_rep, rows_after_all, Hit, TimerSet};
use crate::parse::sp_parse_text;
use crate::resource::{obs_rep, resource_key, Resource, ResourceStore, Response};
use crate::serial::{
    resource_rep, responses_rep, rooted, target_rep, ResourceSerializer, ResourcesSerializer,
    ResponsesSerializer, StatusSerializer,
};
use crate::status::{StatusCache, Target};

verus! {

/// What a handler sends back: the HTTP status code, the content type,
/// and the body.
pub struct ApiResponse {
    pub status: u16,
    pub content_type: String,
    pub body: String,
}

/// The status snapshot document for a cache's entries.
pub open spec fn status_doc(entries: Seq<(Seq<char>, bool)>) -> JsonRep {
    rooted(
        "status"@,
        JsonRep::Obj(
            seq![
                (
                    "targets"@,
                    JsonRep::Arr(
                        entries.map(|i: int, e: (Seq<char>, bool)| target_rep(e.0, e.1)),
                    ),
                ),
            ],
        ),
    )
}

/// The resource-listing document for a store's entries.
pub open spec fn resources_doc(
    entries: Seq<((Seq<char>, Seq<char>), Option<(Seq<char>, int, JsonRep)>)>,
) -> JsonRep {
    JsonRep::Obj(
        seq![
            (
                "resources"@,
                JsonRep::Arr(
                    entries.map(
                        |i: int, e: ((Seq<char>, Seq<char>), Option<(Seq<char>, int, JsonRep)>)|
                            JsonRep::Obj(
                                seq![
                                    ("id"@, JsonRep::Str(e.0.0)),
                                    ("url"@, JsonRep::Str(e.0.1)),
                                ],
                            ),
                    ),
                ),
            ),
        ],
    )
}

/// The responses report document for a matrix, as seen at `now`.
pub open spec fn matrix_responses_doc(
    rows: Seq<(Seq<char>, Seq<(Seq<char>, int)>)>,
    now: int,
) -> JsonRep {
    responses_rep(
        rows.map(
            |i: int, row: (Seq<char>, Seq<(Seq<char>, int)>)|
                (
                    row.0,
                    Option::Some((row.0, 200int, row_report_rep(now, row.1))),
                ),
        ),
    )
}

/// The echo document for a recorded hits batch.
pub open spec fn hits_doc(hs: Seq<(Seq<char>, Seq<char>, int)>) -> JsonRep {
    JsonRep::Arr(
        hs.map(
            |i: int, h: (Seq<char>, Seq<char>, int)|
                JsonRep::Obj(
                    seq![
                        ("src"@, JsonRep::Str(h.0)),
                        ("dst"@, JsonRep::Str(h.1)),
                        ("time"@, JsonRep::Int(h.2)),
                    ],
                ),
        ),
    )
}

/// Whether `body` is one of the decoder's failure descriptions: a syntax
/// failure naming its offset, or the wrong-shape message.
pub open spec fn decode_failure_text(body: Seq<char>) -> bool {
    ||| exists|p: int| 0 <= p && body == #[trigger] crate::parse::syntax_message_chars(p)
    ||| body == "JSON value does not have the expected shape"@
}

/// Serves the status snapshot: the whole cache, every target with its
/// latest outcome.
pub fn handle_status(cache: &StatusCache) -> (r: ApiResponse)
    ensures
        r.status == 200,
        r.content_type@ == "application/json"@,
        r.body@ == json_chars(status_doc(cache.entries())),
{
    let status = cache.poll();
    let body = StatusSerializer.serialize(&status, true);
    proof {
        assert(status.targets@.map(|i: int, t: Target| target_rep(t.url@, t.reachable))
            =~= cache.entries().map(|i: int, e: (Seq<char>, bool)| target_rep(e.0, e.1)));
    }
    ApiResponse { status: 200, content_type: "application/json".to_owned(), body }
}

/// Serves the current resource listing.
pub fn handle_resources(store: &ResourceStore) -> (r: ApiResponse)
    ensures
        r.status == 200,
        r.content_type@ == "application/json"@,
        r.body@ == json_chars(resources_doc(store.entries())),
{
    let rs = store.resources();
    let body = ResourcesSerializer.serialize(&rs);
    proof {
        assert(rs@.map(|i: int, x: Resource| resource_rep(x)) =~= store.entries().map(
            |i: int, e: ((Seq<char>, Seq<char>), Option<(Seq<char>, int, JsonRep)>)|
                JsonRep::Obj(
                    seq![("id"@, JsonRep::Str(e.0.0)), ("url"@, JsonRep::Str(e.0.1))],
                ),
        ));
    }
    ApiResponse { status: 200, content_type: "application/json".to_owned(), body }
}

/// Handles adding a resource: a well-formed `{id, url}` body is stored
/// with a cleared observation and echoed back as created; any other body
/// is rejected with the decode failure's description, and the store is
/// left untouched.
pub fn handle_post_resources(store: &mut ResourceStore, body: &str) -> (r: ApiResponse)
    requires
        old(store).wf(),
    ensures
        final(store).wf(),
        match sp_decode_resource(body@) {
            Option::Some((id, url)) => {
                &&& ResourceStore::saved(*old(store), *final(store), (id, url), Option::None)
                &&& r.status == 201
                &&& r.content_type@ == "application/json"@
                &&& r.body@ == json_chars(
                    JsonRep::Obj(
                        seq![("id"@, JsonRep::Str(id)), ("url"@, JsonRep::Str(url))],
                    ),
                )
            },
            Option::None => {
                &&& *final(store) == *old(store)
                &&& r.status == 400
                &&& r.content_type@ == "text/plain"@
                &&& decode_failure_text(r.body@)
            },
        },
{
    match parse_resource(body) {
        Result::Ok(resource) => {
            let echo = ResourceSerializer.serialize(&resource);
            store.save_resource(resource);
            ApiResponse { status: 201, content_type: "application/json".to_owned(), body: echo }
        },
        Result::Err(e) => {
            let msg = e.message();
            proof {
                if e.kind is Syntax {
                    assert(msg@ == crate::parse::syntax_message_chars(e.pos as int));
                }
            }
            ApiResponse { status: 400, content_type: "text/plain".to_owned(), body: msg }
        },
    }
}

/// Handles a hits batch: a well-formed array of `{src, dst, time}`
/// objects is recorded in order, newest report per edge winning, and
/// echoed back; any other body is rejected with the decode failure's
/// description, and the matrix is left untouched.
pub fn handle_post_hits(ts: &mut TimerSet, body: &str) -> (r: ApiResponse)
    requires
        old(ts).wf(),
    ensures
        final(ts).wf(),
        match sp_decode_hits(body@) {
            Option::Some(hs) => {
                &&& final(ts).rows() == rows_after_all(old(ts).rows(), hs)
                &&& r.status == 200
                &&& r.content_type@ == "application/json"@
                &&& r.body@ == json_chars(hits_doc(hs))
            },
            Option::None => {
                &&& *final(ts) == *old(ts)
                &&& r.status == 400
                &&& r.content_type@ == "text/plain"@
                &&& decode_failure_text(r.body@)
            },
        },
{
    match parse_hits(body) {
        Result::Ok(hits) => {
            let ghost hs = hits@.map(|i: int, h: Hit| (h.src@, h.dst@, h.time as int));
            let echo_json = hits_to_json(&hits);
            let echo = crate::json::encode(&echo_json);
            let n = hits.len();
            let mut k: usize = 0;
            while k < n
                invariant
                    old(ts).wf(),
                    n == hits@.len(),
                    k <= n,
                    hs == hits@.map(|i: int, h: Hit| (h.src@, h.dst@, h.time as int)),
                    hs.len() == n,
                    ts.wf(),
                    ts.rows() == rows_after_all(old(ts).rows(), hs.take(k as int)),
                decreases n - k,
            {
                let h = &hits[k];
                ts.push(h.src.clone(), h.dst.clone(), h.time);
                k = k + 1;
                proof {
                    assert(hs.take(k as int).drop_last() =~= hs.take(k as int - 1));
                    assert(hs.take(k as int).last() == hs[k - 1]);
                    assert(hs[k - 1] == (
                        (hits@[k - 1]).src@,
                        (hits@[k - 1]).dst@,
                        (hits@[k - 1]).time as int,
                    ));
                }
            }
            proof {
                assert(hs.take(n as int) =~= hs);
            }
            ApiResponse { status: 200, content_type: "application/json".to_owned(), body: echo }
        },
        Result::Err(e) => {
            let msg = e.message();
            proof {
                if e.kind is Syntax {
                    assert(msg@ == crate::parse::syntax_message_chars(e.pos as int));
                }
            }
            ApiResponse { status: 400, content_type: "text/plain".to_owned(), body: msg }
        },
    }
}

/// Builds the echo document for a hits batch.
fn hits_to_json(hits: &Vec<Hit>) -> (j: Json)
    ensures
        j@ == hits_doc(hits@.map(|i: int, h: Hit| (h.src@, h.dst@, h.time as int))),
{
    let mut items: Vec<Json> = Vec::new();
    let n = hits.len();
    let mut k: usize = 0;
    while k < n
        invariant
            n == hits@.len(),
            k <= n,
            items@.len() == k,
            forall|i: int|
                0 <= i < k
                    ==> (#[trigger] items@[i])@ == JsonRep::Obj(
                    seq![
                        ("src"@, JsonRep::Str((hits@[i]).src@)),
                        ("dst"@, JsonRep::Str((hits@[i]).dst@)),
                        ("time"@, JsonRep::Int((hits@[i]).time as int)),
                    ],
                ),
        decreases n - k,
    {
        let h = &hits[k];
        let mut pairs: Vec<(String, Json)> = Vec::new();
        pairs.push(("src".to_owned(), Json::Str(h.src.clone())));
        pairs.push(("dst".to_owned(), Json::Str(h.dst.clone())));
        pairs.push(("time".to_owned(), Json::Int(h.time)));
        proof {
            Json::lemma_rep_pairs(pairs@);
            assert(Json::rep_pairs(pairs@) =~= seq![
                ("src"@, JsonRep::Str((hits@[k as int]).src@)),
                ("dst"@, JsonRep::Str((hits@[k as int]).dst@)),
                ("time"@, JsonRep::Int((hits@[k as int]).time as int)),
            ]);
        }
        items.push(Json::Obj(pairs));
        k = k + 1;
    }
    proof {
        Json::lemma_rep_seq(items@);
        assert(Json::rep_seq(items@) =~= hits@.map(
            |i: int, h: Hit| (h.src@, h.dst@, h.time as int),
        ).map(
            |i: int, h: (Seq<char>, Seq<char>, int)|
                JsonRep::Obj(
                    seq![
                        ("src"@, JsonRep::Str(h.0)),
                        ("dst"@, JsonRep::Str(h.1)),
                        ("time"@, JsonRep::Int(h.2)),
                    ],
                ),
        ));
    }
    Json::Arr(items)
}

/// Serves the responses report: every source's row, each destination with
/// its staleness age as seen at `now`.
pub fn handle_responses(ts: &TimerSet, now: i64) -> (r: ApiResponse)
    ensures
        r.status == 200,
        r.content_type@ == "application/json"@,
        r.body@ == json_chars(matrix_responses_doc(ts.rows(), now as int)),
{
    let report = ts.resources(now);
    let body = ResponsesSerializer.serialize(&report);
    proof {
        assert(report@.map(
            |i: int, p: (Resource, Option<Response>)| (p.0.id@, obs_rep(p.1)),
        ) =~= ts.rows().map(
            |i: int, row: (Seq<char>, Seq<(Seq<char>, int)>)|
                (
                    row.0,
                    Option::Some((row.0, 200int, row_report_rep(now as int, row.1))),
                ),
        ));
    }
    ApiResponse { status: 200, content_type: "application/json".to_owned(), body }
}

/// Serves the synthetic example report: a freshly drawn five-node matrix
/// whose every edge was heard from within the last five seconds.
pub fn handle_responses_example(now: i64) -> (r: ApiResponse)
    requires
        i64::MIN + 4 <= now,
    ensures
        r.status == 200,
        r.content_type@ == "application/json"@,
{
    let ts = crate::matrix::example_timer_set(now);
    handle_responses(&ts, now)
}

/// Serves one bundled asset: its content under its inferred content type,
/// or not-found for a name that is not bundled.
pub fn handle_asset(table: &AssetTable, name: &String) -> (r: ApiResponse)
    requires
        table.wf(),
    ensures
        table.contains_name(name@) ==> r.status == 200 && r.content_type@ == content_type_of(
            name@,
        ) && r.body@ == table.content_of(name@),
        !table.contains_name(name@) ==> r.status == 404 && r.body@.len() == 0,
{
    match table.lookup(name) {
        Option::Some(content) => {
            let content_type = guess_content_type(name);
            ApiResponse { status: 200, content_type, body: content }
        },
        Option::None => {
            ApiResponse {
                status: 404,
                content_type: "text/plain".to_owned(),
                body: String::new(),
            }
        },
    }
}

/// Serves the index page, which is the bundled `index.html` asset.
pub fn handle_index(table: &AssetTable) -> (r: ApiResponse)
    requires
        table.wf(),
    ensures
        table.contains_name("index.html"@) ==> r.status == 200 && r.content_type@
            == content_type_of("index.html"@) && r.body@ == table.content_of("index.html"@),
        !table.contains_name("index.html"@) ==> r.status == 404 && r.body@.len() == 0,
{
    let name = "index.html".to_owned();
    handle_asset(table, &name)
}

/// The not-found reply for any unknown route.
pub fn handle_not_found() -> (r: ApiResponse)
    ensures
        r.status == 404,
        r.body@.len() == 0,
{
    ApiResponse { status: 404, content_type: "text/plain".to_owned(), body: String::new() }
}

/// The worker boundary for the probe variant: records what one probe
/// attempt of `target_url` found, `true` where the endpoint answered and
/// `false` where the connection failed or timed out.  Failure is a
/// first-class recorded value; nothing is ever raised to the scheduler.
pub fn record_probe(cache: &mut StatusCache, target_url: String, answered: bool)
    requires
        old(cache).wf(),
    ensures
        StatusCache::recorded(*old(cache), *final(cache), target_url@, answered),
{
    if answered {
        cache.reachable(target_url);
    } else {
        cache.unreachable(target_url);
    }
}

/// What one fetch attempt leaves in the store: the response's status code
/// and its body parsed as JSON on success, and no observation at all when
/// the fetch failed or the body is not JSON.
pub fn fetch_outcome(resource: &Resource, fetch: Option<(u16, String)>) -> (obs: Option<Response>)
    ensures
        match fetch {
            Option::None => obs is None,
            Option::Some((code, fetched)) => match sp_parse_text(fetched@) {
                Option::None => obs is None,
                Option::Some(v) => obs matches Option::Some(resp) && resp.url@ == resource.url@
                    && resp.status_code == code && resp.json@ == v,
            },
        },
{
    match fetch {
        Option::None => Option::None,
        Option::Some((code, fetched)) => {
            match crate::parse::json_decode(fetched.as_str()) {
                Result::Err(_) => Option::None,
                Result::Ok(v) => Option::Some(
                    Response { url: resource.url.clone(), status_code: code, json: v },
                ),
            }
        },
    }
}

/// The worker boundary for the collect variant: records what one fetch
/// attempt of `resource` produced, overwriting the previous observation.
/// A failed fetch or a non-JSON body is recorded as the absence of an
/// observation; nothing is ever raised to the scheduler.
pub fn record_fetch(store: &mut ResourceStore, resource: Resource, fetch: Option<(u16, String)>)
    requires
        old(store).wf(),
    ensures
        final(store).wf(),
        match fetch {
            Option::None => ResourceStore::saved(
                *old(store),
                *final(store),
                resource_key(resource),
                Option::None,
            ),
            Option::Some((code, fetched)) => match sp_parse_text(fetched@) {
                Option::None => ResourceStore::saved(
                    *old(store),
                    *final(store),
                    resource_key(resource),
                    Option::None,
                ),
                Option::Some(v) => ResourceStore::saved(
                    *old(store),
                    *final(store),
                    resource_key(resource),
                    Option::Some((resource.url@, code as int, v)),
                ),
            },
        },
{
    let obs = fetch_outcome(&resource, fetch);
    store.save_response(resource, obs);
}

/// The probe variant's whole request surface: the status snapshot under
/// its one route, and not-found for everything else.
pub fn handle_probe_request(cache: &StatusCache, method: &str, path: &str) -> (r: ApiResponse)
    ensures
        method@ == "GET"@ && path@ == "/status"@ ==> r.status == 200 && r.content_type@
            == "application/json"@ && r.body@ == json_chars(status_doc(cache.entries())),
        !(method@ == "GET"@ && path@ == "/status"@) ==> r.status == 404 && r.body@.len() == 0,
{
    match crate::routes::route(method, path) {
        crate::routes::Route::GetStatus => handle_status(cache),
        _ => handle_not_found(),
    }
}

/// The collect variant's whole request surface: recording hits, reading
/// the responses report and its synthetic example, adding and listing
/// resources, the index page and the bundled assets, and not-found for
/// everything else.  Only the two write routes touch the caches.
pub fn handle_collect_request(
    ts: &mut TimerSet,
    store: &mut ResourceStore,
    table: &AssetTable,
    method: &str,
    path: &str,
    body: &str,
    now: i64,
) -> (r: ApiResponse)
    requires
        old(ts).wf(),
        old(store).wf(),
        table.wf(),
        i64::MIN + 4 <= now,
    ensures
        final(ts).wf(),
        final(store).wf(),
        !(method@ == "POST"@ && path@ == "/hits"@) ==> *final(ts) == *old(ts),
        !(method@ == "POST"@ && path@ == "/resources"@) ==> *final(store) == *old(store),
        method@ == "POST"@ && path@ == "/hits"@ ==> match sp_decode_hits(body@) {
            Option::Some(hs) => {
                &&& final(ts).rows() == rows_after_all(old(ts).rows(), hs)
                &&& r.status == 200
                &&& r.content_type@ == "application/json"@
                &&& r.body@ == json_chars(hits_doc(hs))
            },
            Option::None => {
                &&& *final(ts) == *old(ts)
                &&& r.status == 400
                &&& r.content_type@ == "text/plain"@
                &&& decode_failure_text(r.body@)
            },
        },
        method@ == "POST"@ && path@ == "/resources"@ ==> match sp_decode_resource(body@) {
            Option::Some((id, url)) => {
                &&& ResourceStore::saved(*old(store), *final(store), (id, url), Option::None)
                &&& r.status == 201
                &&& r.content_type@ == "application/json"@
                &&& r.body@ == json_chars(
                    JsonRep::Obj(
                        seq![("id"@, JsonRep::Str(id)), ("url"@, JsonRep::Str(url))],
                    ),
                )
            },
            Option::None => {
                &&& *final(store) == *old(store)
                &&& r.status == 400
                &&& r.content_type@ == "text/plain"@
                &&& decode_failure_text(r.body@)
            },
        },
        method@ == "GET"@ && path@ == "/resources"@ ==> r.status == 200 && r.content_type@
            == "application/json"@ && r.body@ == json_chars(resources_doc(old(store).entries())),
        method@ == "GET"@ && path@ == "/responses"@ ==> r.status == 200 && r.content_type@
            == "application/json"@ && r.body@ == json_chars(
            matrix_responses_doc(old(ts).rows(), now as int),
        ),
        method@ == "GET"@ && path@ == "/responses/example"@ ==> r.status == 200 && r.content_type@
            == "application/json"@,
        (method@ == "GET"@ && crate::routes::is_index_path(path@) && !(path@ == "/status"@ || path@
            == "/resources"@ || path@ == "/responses"@ || path@ == "/responses/example"@)) ==> {
            &&& table.contains_name("index.html"@) ==> r.status == 200 && r.body@
                == table.content_of("index.html"@)
            &&& !table.contains_name("index.html"@) ==> r.status == 404
        },
        (method@ == "GET"@ && crate::routes::is_asset_path(path@) && !(path@ == "/status"@ || path@
            == "/resources"@ || path@ == "/responses"@ || path@ == "/responses/example"@
            || crate::routes::is_index_path(path@))) ==> {
            let name = crate::routes::asset_name_of(path@);
            &&& table.contains_name(name) ==> r.status == 200 && r.content_type@
                == content_type_of(name) && r.body@ == table.content_of(name)
            &&& !table.contains_name(name) ==> r.status == 404
        },
        (!(method@ == "POST"@ && (path@ == "/hits"@ || path@ == "/resources"@)) && !(method@
            == "GET"@ && (path@ == "/resources"@ || path@ == "/responses"@ || path@
            == "/responses/example"@ || crate::routes::is_index_path(path@)
            || crate::routes::is_asset_path(path@)))) ==> r.status == 404 && r.body@.len() == 0,
{
    match crate::routes::route(method, path) {
        crate::routes::Route::PostHits => handle_post_hits(ts, body),
        crate::routes::Route::PostResources => handle_post_resources(store, body),
        crate::routes::Route::GetResources => handle_resources(store),
        crate::routes::Route::GetResponses => handle_responses(ts, now),
        crate::routes::Route::GetResponsesExample => handle_responses_example(now),
        crate::routes::Route::GetIndex => handle_index(table),
        crate::routes::Route::GetAsset(name) => handle_asset(table, &name),
        crate::routes::Route::GetStatus => handle_not_found(),
        crate::routes::Route::NotFound => handle_not_found(),
    }
}


} // verus!
