//! Builders for the JSON documents the REST layer serves: the status
//! snapshot, the resource listing, and the responses report.  Each
//! serializer's output is pinned character by character.

use vstd::prelude::*;
use crate::json::{encode, json_chars, Json, JsonRep};
use crate::resource::{obs_rep, Resource, Response};
use crate::status::{Peer, Status, Target};

verus! {

/// The document for one target: its URL and latest reachability.
pub open spec fn target_rep(url: Seq<char>, reachable: bool) -> JsonRep {
    JsonRep::Obj(seq![("url"@, JsonRep::Str(url)), ("reachable"@, JsonRep::Bool(reachable))])
}

/// The status snapshot document: every target with its latest outcome,
/// in snapshot order.
pub open spec fn status_rep(targets: Seq<Target>) -> JsonRep {
    JsonRep::Obj(
        seq![
            (
                "targets"@,
                JsonRep::Arr(targets.map(|i: int, t: Target| target_rep(t.url@, t.reachable))),
            ),
        ],
    )
}

/// A document wrapped under a single root key.
pub open spec fn rooted(root: Seq<char>, body: JsonRep) -> JsonRep {
    JsonRep::Obj(seq![(root, body)])
}

/// Builds the target-set entry for one target.
fn target_to_json(url: &String, reachable: bool) -> (j: Json)
    ensures
        j@ == target_rep(url@, reachable),
{
    let mut pairs: Vec<(String, Json)> = Vec::new();
    pairs.push(("url".to_owned(), Json::Str(url.clone())));
    pairs.push(("reachable".to_owned(), Json::Bool(reachable)));
    proof {
        Json::lemma_rep_pairs(pairs@);
        assert(Json::rep_pairs(pairs@) =~= seq![
            ("url"@, JsonRep::Str(url@)),
            ("reachable"@, JsonRep::Bool(reachable)),
        ]);
    }
    Json::Obj(pairs)
}

/// Builds a document wrapped under a single root key.
fn wrap_root(root: &str, body: Json) -> (j: Json)
    ensures
        j@ == rooted(root@, body@),
{
    let ghost body_rep = body@;
    let mut pairs: Vec<(String, Json)> = Vec::new();
    pairs.push((root.to_owned(), body));
    proof {
        Json::lemma_rep_pairs(pairs@);
        assert(Json::rep_pairs(pairs@) =~= seq![(root@, body_rep)]);
    }
    Json::Obj(pairs)
}

/// Writes the status snapshot document, as the status endpoint serves
/// it.
pub struct StatusSerializer;

impl StatusSerializer {
    /// The snapshot as a JSON value: with the root, `{"status": {...}}`;
    /// without it, the bare snapshot object.
    pub fn to_json(&self, status: &Status, include_root: bool) -> (j: Json)
        ensures
            include_root ==> j@ == rooted("status"@, status_rep(status.targets@)),
            !include_root ==> j@ == status_rep(status.targets@),
    {
        let mut items: Vec<Json> = Vec::new();
        let n = status.targets.len();
        let mut k: usize = 0;
        while k < n
            invariant
                n == status.targets@.len(),
                k <= n,
                items@.len() == k,
                forall|i: int|
                    0 <= i < k
                        ==> (#[trigger] items@[i])@ == target_rep(
                        (status.targets@[i]).url@,
                        (status.targets@[i]).reachable,
                    ),
            decreases n - k,
        {
            let t = &status.targets[k];
            items.push(target_to_json(&t.url, t.reachable));
            k = k + 1;
        }
        proof {
            Json::lemma_rep_seq(items@);
            assert(Json::rep_seq(items@) =~= status.targets@.map(
                |i: int, t: Target| target_rep(t.url@, t.reachable),
            ));
        }
        let arr = Json::Arr(items);
        let ghost arr_rep = arr@;
        let mut pairs: Vec<(String, Json)> = Vec::new();
        pairs.push(("targets".to_owned(), arr));
        let body = Json::Obj(pairs);
        proof {
            Json::lemma_rep_pairs(pairs@);
            assert(Json::rep_pairs(pairs@) =~= seq![("targets"@, arr_rep)]);
            assert(body@ == status_rep(status.targets@));
        }
        if include_root {
            wrap_root("status", body)
        } else {
            body
        }
    }

    /// The snapshot document's text.
    pub fn serialize(&self, status: &Status, include_root: bool) -> (s: String)
        ensures
            include_root ==> s@ == json_chars(rooted("status"@, status_rep(status.targets@))),
            !include_root ==> s@ == json_chars(status_rep(status.targets@)),
    {
        let j = self.to_json(status, include_root);
        encode(&j)
    }
}

/// Writes one target's document, optionally under a `target` root.
pub struct TargetSerializer;

impl TargetSerializer {
    /// The target as a JSON value.
    pub fn to_json(&self, target: &Target, include_root: bool) -> (j: Json)
        ensures
            include_root ==> j@ == rooted("target"@, target_rep(target.url@, target.reachable)),
            !include_root ==> j@ == target_rep(target.url@, target.reachable),
    {
        let body = target_to_json(&target.url, target.reachable);
        if include_root {
            wrap_root("target", body)
        } else {
            body
        }
    }

    /// The target document's text.
    pub fn serialize(&self, target: &Target, include_root: bool) -> (s: String)
        ensures
            include_root ==> s@ == json_chars(
                rooted("target"@, target_rep(target.url@, target.reachable)),
            ),
            !include_root ==> s@ == json_chars(target_rep(target.url@, target.reachable)),
    {
        let j = self.to_json(target, include_root);
        encode(&j)
    }
}

/// Writes one peer's document, optionally under a `peer` root.
pub struct PeerSerializer;

impl PeerSerializer {
    /// The peer as a JSON value.
    pub fn to_json(&self, peer: &Peer, include_root: bool) -> (j: Json)
        ensures
            include_root ==> j@ == rooted("peer"@, target_rep(peer.url@, peer.reachable)),
            !include_root ==> j@ == target_rep(peer.url@, peer.reachable),
    {
        let body = target_to_json(&peer.url, peer.reachable);
        if include_root {
            wrap_root("peer", body)
        } else {
            body
        }
    }

    /// The peer document's text.
    pub fn serialize(&self, peer: &Peer, include_root: bool) -> (s: String)
        ensures
            include_root ==> s@ == json_chars(
                rooted("peer"@, target_rep(peer.url@, peer.reachable)),
            ),
            !include_root ==> s@ == json_chars(target_rep(peer.url@, peer.reachable)),
    {
        let j = self.to_json(peer, include_root);
        encode(&j)
    }
}

/// The document for one resource: its identifier and URL.
pub open spec fn resource_rep(r: Resource) -> JsonRep {
    JsonRep::Obj(seq![("id"@, JsonRep::Str(r.id@)), ("url"@, JsonRep::Str(r.url@))])
}

/// The resource-listing document: `{"resources": [...]}`.
pub open spec fn resources_rep(rs: Seq<Resource>) -> JsonRep {
    JsonRep::Obj(
        seq![("resources"@, JsonRep::Arr(rs.map(|i: int, r: Resource| resource_rep(r))))],
    )
}

/// Writes one resource's document.
pub struct ResourceSerializer;

impl ResourceSerializer {
    /// The resource as a JSON value.
    pub fn to_json(&self, resource: &Resource) -> (j: Json)
        ensures
            j@ == resource_rep(*resource),
    {
        let mut pairs: Vec<(String, Json)> = Vec::new();
        pairs.push(("id".to_owned(), Json::Str(resource.id.clone())));
        pairs.push(("url".to_owned(), Json::Str(resource.url.clone())));
        proof {
            Json::lemma_rep_pairs(pairs@);
            assert(Json::rep_pairs(pairs@) =~= seq![
                ("id"@, JsonRep::Str(resource.id@)),
                ("url"@, JsonRep::Str(resource.url@)),
            ]);
        }
        Json::Obj(pairs)
    }

    /// The resource document's text.
    pub fn serialize(&self, resource: &Resource) -> (s: String)
        ensures
            s@ == json_chars(resource_rep(*resource)),
    {
        let j = self.to_json(resource);
        encode(&j)
    }
}

/// Writes the resource-listing document.
pub struct ResourcesSerializer;

impl ResourcesSerializer {
    /// The listing as a JSON value.
    pub fn to_json(&self, resources: &Vec<Resource>) -> (j: Json)
        ensures
            j@ == resources_rep(resources@),
    {
        let mut items: Vec<Json> = Vec::new();
        let n = resources.len();
        let mut k: usize = 0;
        while k < n
            invariant
                n == resources@.len(),
                k <= n,
                items@.len() == k,
                forall|i: int|
                    0 <= i < k ==> (#[trigger] items@[i])@ == resource_rep(resources@[i]),
            decreases n - k,
        {
            items.push(ResourceSerializer.to_json(&resources[k]));
            k = k + 1;
        }
        proof {
            Json::lemma_rep_seq(items@);
            assert(Json::rep_seq(items@) =~= resources@.map(
                |i: int, r: Resource| resource_rep(r),
            ));
        }
        let ghost items_rep = Json::rep_seq(items@);
        let mut pairs: Vec<(String, Json)> = Vec::new();
        pairs.push(("resources".to_owned(), Json::Arr(items)));
        proof {
            Json::lemma_rep_pairs(pairs@);
            assert(Json::rep_pairs(pairs@) =~= seq![("resources"@, JsonRep::Arr(items_rep))]);
        }
        Json::Obj(pairs)
    }

    /// The listing document's text.
    pub fn serialize(&self, resources: &Vec<Resource>) -> (s: String)
        ensures
            s@ == json_chars(resources_rep(resources@)),
    {
        let j = self.to_json(resources);
        encode(&j)
    }
}

/// The document for one recorded response: the URL that answered, the
/// status code, and the response body.
pub open spec fn response_rep_json(url: Seq<char>, code: int, body: JsonRep) -> JsonRep {
    JsonRep::Obj(
        seq![
            ("url"@, JsonRep::Str(url)),
            ("statusCode"@, JsonRep::Int(code)),
            ("json"@, body),
        ],
    )
}

/// The document for one observation: the response's document, or null
/// where the latest fetch failed or never ran.
pub open spec fn observation_rep(obs: Option<(Seq<char>, int, JsonRep)>) -> JsonRep {
    match obs {
        Option::None => JsonRep::Null,
        Option::Some((url, code, body)) => response_rep_json(url, code, body),
    }
}

/// The responses report: `{"responses": {"<id>": observation, ...}}`.
pub open spec fn responses_rep(
    entries: Seq<(Seq<char>, Option<(Seq<char>, int, JsonRep)>)>,
) -> JsonRep {
    JsonRep::Obj(
        seq![
            (
                "responses"@,
                JsonRep::Obj(
                    entries.map(
                        |i: int, e: (Seq<char>, Option<(Seq<char>, int, JsonRep)>)|
                            (e.0, observation_rep(e.1)),
                    ),
                ),
            ),
        ],
    )
}

/// Writes one response's document.
pub struct ResponseSerializer;

impl ResponseSerializer {
    /// The response as a JSON value.
    pub fn to_json(&self, response: &Response) -> (j: Json)
        ensures
            j@ == response_rep_json(response.url@, response.status_code as int, response.json@),
    {
        let ghost body_rep = response.json@;
        let mut pairs: Vec<(String, Json)> = Vec::new();
        pairs.push(("url".to_owned(), Json::Str(response.url.clone())));
        pairs.push(("statusCode".to_owned(), Json::Int(response.status_code as i64)));
        pairs.push(("json".to_owned(), response.json.clone()));
        proof {
            Json::lemma_rep_pairs(pairs@);
            assert(Json::rep_pairs(pairs@) =~= seq![
                ("url"@, JsonRep::Str(response.url@)),
                ("statusCode"@, JsonRep::Int(response.status_code as int)),
                ("json"@, body_rep),
            ]);
        }
        Json::Obj(pairs)
    }

    /// The response document's text.
    pub fn serialize(&self, response: &Response) -> (s: String)
        ensures
            s@ == json_chars(
                response_rep_json(response.url@, response.status_code as int, response.json@),
            ),
    {
        let j = self.to_json(response);
        encode(&j)
    }
}

/// Writes the responses report.
pub struct ResponsesSerializer;

impl ResponsesSerializer {
    /// The report as a JSON value: each resource's identifier mapped to
    /// its latest observation, or null where none succeeded yet.
    pub fn to_json(&self, responses: &Vec<(Resource, Option<Response>)>) -> (j: Json)
        ensures
            j@ == responses_rep(
                responses@.map(
                    |i: int, p: (Resource, Option<Response>)| (p.0.id@, obs_rep(p.1)),
                ),
            ),
    {
        let mut pairs: Vec<(String, Json)> = Vec::new();
        let n = responses.len();
        let mut k: usize = 0;
        while k < n
            invariant
                n == responses@.len(),
                k <= n,
                pairs@.len() == k,
                forall|i: int|
                    0 <= i < k
                        ==> (#[trigger] pairs@[i]).0@ == (responses@[i]).0.id@ && (pairs@[i]).1@
                        == observation_rep(obs_rep((responses@[i]).1)),
            decreases n - k,
        {
            let entry = &responses[k];
            let value = match &entry.1 {
                Option::Some(resp) => ResponseSerializer.to_json(resp),
                Option::None => Json::Null,
            };
            pairs.push((entry.0.id.clone(), value));
            k = k + 1;
        }
        let ghost entries = responses@.map(
            |i: int, p: (Resource, Option<Response>)| (p.0.id@, obs_rep(p.1)),
        );
        proof {
            Json::lemma_rep_pairs(pairs@);
            assert(Json::rep_pairs(pairs@) =~= entries.map(
                |i: int, e: (Seq<char>, Option<(Seq<char>, int, JsonRep)>)|
                    (e.0, observation_rep(e.1)),
            ));
        }
        let ghost inner_rep = Json::rep_pairs(pairs@);
        let inner = Json::Obj(pairs);
        let mut outer: Vec<(String, Json)> = Vec::new();
        outer.push(("responses".to_owned(), inner));
        proof {
            Json::lemma_rep_pairs(outer@);
            assert(Json::rep_pairs(outer@) =~= seq![("responses"@, JsonRep::Obj(inner_rep))]);
        }
        Json::Obj(outer)
    }

    /// The report document's text.
    pub fn serialize(&self, responses: &Vec<(Resource, Option<Response>)>) -> (s: String)
        ensures
            s@ == json_chars(
                responses_rep(
                    responses@.map(
                        |i: int, p: (Resource, Option<Response>)| (p.0.id@, obs_rep(p.1)),
                    ),
                ),
            ),
    {
        let j = self.to_json(responses);
        encode(&j)
    }
}

} // verus!
