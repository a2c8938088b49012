//! Typed readers for the two write endpoints' bodies: one resource
//! object, and an array of reachability hits.

use vstd::prelude::*;
use crate::json::{Json, JsonRep};
use crate::matrix::Hit;
use crate::parse::{json_decode, sp_parse_text, DecodeError, DecodeErrorKind};
use crate::resource::Resource;
use crate::text::str_eq;

verus! {

/// The value an object holds under `key`: the last member wins, as a map
/// built by inserting each member in order would have it.
pub open spec fn obj_lookup(pairs: Seq<(Seq<char>, JsonRep)>, key: Seq<char>) -> Option<JsonRep>
    decreases pairs.len(),
{
    if pairs.len() == 0 {
        Option::None
    } else if pairs.last().0 == key {
        Option::Some(pairs.last().1)
    } else {
        obj_lookup(pairs.drop_last(), key)
    }
}

/// The resource a decoded body describes: an object whose `id` and `url`
/// members are strings.
pub open spec fn resource_of_rep(v: JsonRep) -> Option<(Seq<char>, Seq<char>)> {
    match v {
        JsonRep::Obj(ps) => {
            match obj_lookup(ps, "id"@) {
                Option::Some(JsonRep::Str(id)) => match obj_lookup(ps, "url"@) {
                    Option::Some(JsonRep::Str(url)) => Option::Some((id, url)),
                    _ => Option::None,
                },
                _ => Option::None,
            }
        },
        _ => Option::None,
    }
}

/// What a resource body decodes to, if anything.
pub open spec fn sp_decode_resource(s: Seq<char>) -> Option<(Seq<char>, Seq<char>)> {
    match sp_parse_text(s) {
        Option::None => Option::None,
        Option::Some(v) => resource_of_rep(v),
    }
}

/// The hit one array element describes: an object whose `src` and `dst`
/// members are strings and whose `time` member is an integer.
pub open spec fn hit_of_rep(v: JsonRep) -> Option<(Seq<char>, Seq<char>, int)> {
    match v {
        JsonRep::Obj(ps) => {
            match obj_lookup(ps, "src"@) {
                Option::Some(JsonRep::Str(src)) => match obj_lookup(ps, "dst"@) {
                    Option::Some(JsonRep::Str(dst)) => match obj_lookup(ps, "time"@) {
                        Option::Some(JsonRep::Int(t)) => Option::Some((src, dst, t)),
                        _ => Option::None,
                    },
                    _ => Option::None,
                },
                _ => Option::None,
            }
        },
        _ => Option::None,
    }
}

/// The hits a decoded array describes, each element in turn.
pub open spec fn hits_of_items(items: Seq<JsonRep>) -> Option<Seq<(Seq<char>, Seq<char>, int)>>
    decreases items.len(),
{
    if items.len() == 0 {
        Option::Some(Seq::empty())
    } else {
        match hits_of_items(items.drop_last()) {
            Option::None => Option::None,
            Option::Some(front) => match hit_of_rep(items.last()) {
                Option::None => Option::None,
                Option::Some(h) => Option::Some(front.push(h)),
            },
        }
    }
}

/// What a hits body decodes to, if anything.
pub open spec fn sp_decode_hits(s: Seq<char>) -> Option<Seq<(Seq<char>, Seq<char>, int)>> {
    match sp_parse_text(s) {
        Option::None => Option::None,
        Option::Some(v) => match v {
            JsonRep::Arr(items) => hits_of_items(items),
            _ => Option::None,
        },
    }
}

/// Looks a member up in an object's pair list; the last member under the
/// key wins.
fn lookup_member(pairs: &Vec<(String, Json)>, key: &str) -> (r: Option<Json>)
    ensures
        match r {
            Option::Some(v) => obj_lookup(Json::rep_pairs(pairs@), key@) == Option::Some(v@),
            Option::None => obj_lookup(Json::rep_pairs(pairs@), key@) is None,
        },
{
    let ghost full = Json::rep_pairs(pairs@);
    proof {
        Json::lemma_rep_pairs(pairs@);
    }
    let mut k = pairs.len();
    proof {
        assert(full.take(pairs@.len() as int) =~= full);
    }
    while k > 0
        invariant
            k <= pairs@.len(),
            full == Json::rep_pairs(pairs@),
            full.len() == pairs@.len(),
            forall|i: int|
                0 <= i < pairs@.len() ==> #[trigger] full[i] == ((pairs@[i]).0@, (pairs@[i]).1@),
            obj_lookup(full, key@) == obj_lookup(full.take(k as int), key@),
        decreases k,
    {
        k = k - 1;
        if str_eq(pairs[k].0.as_str(), key) {
            proof {
                assert(full.take(k as int + 1).last() == full[k as int]);
                assert(obj_lookup(full.take(k as int + 1), key@) == Option::Some(
                    (pairs@[k as int]).1@,
                ));
            }
            return Option::Some(pairs[k].1.clone());
        }
        proof {
            assert(full.take(k as int + 1).last() == full[k as int]);
            assert(full.take(k as int + 1).drop_last() =~= full.take(k as int));
            assert(obj_lookup(full.take(k as int + 1), key@) == obj_lookup(
                full.take(k as int),
                key@,
            ));
        }
    }
    proof {
        assert(full.take(0) =~= Seq::<(Seq<char>, JsonRep)>::empty());
    }
    Option::None
}

/// Decodes a resource body: the `{id, url}` object a client posts.
/// Succeeds exactly on well-formed JSON of that shape, and reports a
/// syntax or shape failure otherwise.
pub fn parse_resource(text: &str) -> (r: Result<Resource, DecodeError>)
    ensures
        match r {
            Result::Ok(res) => sp_decode_resource(text@) == Option::Some((res.id@, res.url@)),
            Result::Err(_) => sp_decode_resource(text@) is None,
        },
{
    let parsed = match json_decode(text) {
        Result::Err(e) => {
            return Result::Err(e);
        },
        Result::Ok(v) => v,
    };
    match parsed {
        Json::Obj(pairs) => {
            let id = match lookup_member(&pairs, "id") {
                Option::Some(Json::Str(id)) => id,
                Option::Some(other) => {
                    proof {
                        lemma_rep_variant(&other);
                    }
                    return Result::Err(DecodeError { pos: 0, kind: DecodeErrorKind::Shape });
                },
                Option::None => {
                    return Result::Err(DecodeError { pos: 0, kind: DecodeErrorKind::Shape });
                },
            };
            let url = match lookup_member(&pairs, "url") {
                Option::Some(Json::Str(url)) => url,
                Option::Some(other) => {
                    proof {
                        lemma_rep_variant(&other);
                    }
                    return Result::Err(DecodeError { pos: 0, kind: DecodeErrorKind::Shape });
                },
                Option::None => {
                    return Result::Err(DecodeError { pos: 0, kind: DecodeErrorKind::Shape });
                },
            };
            Result::Ok(Resource { id, url })
        },
        other => {
            proof {
                lemma_rep_variant(&other);
            }
            Result::Err(DecodeError { pos: 0, kind: DecodeErrorKind::Shape })
        },
    }
}

/// Decodes a hits body: the array of `{src, dst, time}` objects a client
/// posts.  Succeeds exactly on well-formed JSON of that shape, and
/// reports a syntax or shape failure otherwise.
pub fn parse_hits(text: &str) -> (r: Result<Vec<Hit>, DecodeError>)
    ensures
        match r {
            Result::Ok(hs) => sp_decode_hits(text@) == Option::Some(
                hs@.map(|i: int, h: Hit| (h.src@, h.dst@, h.time as int)),
            ),
            Result::Err(_) => sp_decode_hits(text@) is None,
        },
{
    let parsed = match json_decode(text) {
        Result::Err(e) => {
            return Result::Err(e);
        },
        Result::Ok(v) => v,
    };
    let items = match parsed {
        Json::Arr(items) => items,
        other => {
            proof {
                lemma_rep_variant(&other);
            }
            return Result::Err(DecodeError { pos: 0, kind: DecodeErrorKind::Shape });
        },
    };
    proof {
        Json::lemma_rep_seq(items@);
    }
    let ghost reps = Json::rep_seq(items@);
    proof {
        assert(sp_parse_text(text@) == Option::Some(JsonRep::Arr(reps)));
    }
    let mut hits: Vec<Hit> = Vec::new();
    let n = items.len();
    let mut k: usize = 0;
    while k < n
        invariant
            n == items@.len(),
            k <= n,
            sp_parse_text(text@) == Option::Some(JsonRep::Arr(reps)),
            reps == Json::rep_seq(items@),
            reps.len() == n,
            forall|i: int| 0 <= i < n ==> #[trigger] reps[i] == (items@[i])@,
            hits_of_items(reps.take(k as int)) == Option::Some(
                hits@.map(|i: int, h: Hit| (h.src@, h.dst@, h.time as int)),
            ),
        decreases n - k,
    {
        let item_pairs = match &items[k] {
            Json::Obj(pairs) => pairs,
            _ => {
                proof {
                    lemma_rep_variant(&items[k as int]);
                    lemma_hits_of_items_none(reps, k as int);
                }
                return Result::Err(DecodeError { pos: 0, kind: DecodeErrorKind::Shape });
            },
        };
        proof {
            assert((items@[k as int])@ == JsonRep::Obj(Json::rep_pairs(item_pairs@)));
        }
        let ghost ps = Json::rep_pairs(item_pairs@);
        let src = match lookup_member(item_pairs, "src") {
            Option::Some(Json::Str(s2)) => s2,
            Option::Some(other) => {
                proof {
                    lemma_rep_variant(&other);
                    assert(hit_of_rep(reps[k as int]) is None);
                    lemma_hits_of_items_none(reps, k as int);
                }
                return Result::Err(DecodeError { pos: 0, kind: DecodeErrorKind::Shape });
            },
            Option::None => {
                proof {
                    assert(hit_of_rep(reps[k as int]) is None);
                    lemma_hits_of_items_none(reps, k as int);
                }
                return Result::Err(DecodeError { pos: 0, kind: DecodeErrorKind::Shape });
            },
        };
        let dst = match lookup_member(item_pairs, "dst") {
            Option::Some(Json::Str(s2)) => s2,
            Option::Some(other) => {
                proof {
                    lemma_rep_variant(&other);
                    assert(hit_of_rep(reps[k as int]) is None);
                    lemma_hits_of_items_none(reps, k as int);
                }
                return Result::Err(DecodeError { pos: 0, kind: DecodeErrorKind::Shape });
            },
            Option::None => {
                proof {
                    assert(hit_of_rep(reps[k as int]) is None);
                    lemma_hits_of_items_none(reps, k as int);
                }
                return Result::Err(DecodeError { pos: 0, kind: DecodeErrorKind::Shape });
            },
        };
        let time = match lookup_member(item_pairs, "time") {
            Option::Some(Json::Int(t)) => t,
            Option::Some(other) => {
                proof {
                    lemma_rep_variant(&other);
                    assert(hit_of_rep(reps[k as int]) is None);
                    lemma_hits_of_items_none(reps, k as int);
                }
                return Result::Err(DecodeError { pos: 0, kind: DecodeErrorKind::Shape });
            },
            Option::None => {
                proof {
                    assert(hit_of_rep(reps[k as int]) is None);
                    lemma_hits_of_items_none(reps, k as int);
                }
                return Result::Err(DecodeError { pos: 0, kind: DecodeErrorKind::Shape });
            },
        };
        let ghost pre_hits = hits@;
        let ghost sv = src@;
        let ghost dv = dst@;
        hits.push(Hit { src, dst, time });
        k = k + 1;
        proof {
            assert(hit_of_rep(reps[k - 1]) == Option::Some((sv, dv, time as int)));
            assert(reps.take(k as int).drop_last() =~= reps.take(k as int - 1));
            assert(reps.take(k as int).last() == reps[k - 1]);
            assert(hits@.map(|i: int, h: Hit| (h.src@, h.dst@, h.time as int)) =~= pre_hits.map(
                |i: int, h: Hit| (h.src@, h.dst@, h.time as int),
            ).push((sv, dv, time as int)));
        }
    }
    proof {
        assert(reps.take(n as int) =~= reps);
    }
    Result::Ok(hits)
}

/// A value's representation has the same variant as the value.
proof fn lemma_rep_variant(j: &Json)
    ensures
        (j is Str <==> j@ is Str),
        (j is Int <==> j@ is Int),
        (j is Obj <==> j@ is Obj),
        (j is Arr <==> j@ is Arr),
        (j is Bool <==> j@ is Bool),
        (j is Null <==> j@ is Null),
{
    match j {
        Json::Null => {},
        Json::Bool(_) => {},
        Json::Int(_) => {},
        Json::Str(_) => {},
        Json::Arr(_) => {},
        Json::Obj(_) => {},
    }
}

/// Where one element fails to describe a hit, the whole array decodes to
/// nothing.
proof fn lemma_hits_of_items_none(items: Seq<JsonRep>, k: int)
    requires
        0 <= k < items.len(),
        hit_of_rep(items[k]) is None,
    ensures
        hits_of_items(items) is None,
    decreases items.len(),
{
    if items.len() > 0 {
        if k == items.len() - 1 {
            assert(items.last() == items[k]);
        } else {
            lemma_hits_of_items_none(items.drop_last(), k);
        }
    }
}

/// The resources a decoded array describes, each element in turn.
pub open spec fn resources_of_items(items: Seq<JsonRep>) -> Option<Seq<(Seq<char>, Seq<char>)>>
    decreases items.len(),
{
    if items.len() == 0 {
        Option::Some(Seq::empty())
    } else {
        match resources_of_items(items.drop_last()) {
            Option::None => Option::None,
            Option::Some(front) => match resource_of_rep(items.last()) {
                Option::None => Option::None,
                Option::Some(r) => Option::Some(front.push(r)),
            },
        }
    }
}

/// What an initial-resources body decodes to, if anything: an array of
/// `{id, url}` objects.
pub open spec fn sp_decode_resources(s: Seq<char>) -> Option<Seq<(Seq<char>, Seq<char>)>> {
    match sp_parse_text(s) {
        Option::None => Option::None,
        Option::Some(v) => match v {
            JsonRep::Arr(items) => resources_of_items(items),
            _ => Option::None,
        },
    }
}

/// Decodes an initial-resources body: the array of `{id, url}` objects a
/// configuration file holds.  Succeeds exactly on well-formed JSON of
/// that shape, and reports a syntax or shape failure otherwise.
pub fn parse_resources(text: &str) -> (r: Result<Vec<Resource>, DecodeError>)
    ensures
        match r {
            Result::Ok(rs) => sp_decode_resources(text@) == Option::Some(
                rs@.map(|i: int, x: Resource| (x.id@, x.url@)),
            ),
            Result::Err(_) => sp_decode_resources(text@) is None,
        },
{
    let parsed = match json_decode(text) {
        Result::Err(e) => {
            return Result::Err(e);
        },
        Result::Ok(v) => v,
    };
    let items = match parsed {
        Json::Arr(items) => items,
        other => {
            proof {
                lemma_rep_variant(&other);
            }
            return Result::Err(DecodeError { pos: 0, kind: DecodeErrorKind::Shape });
        },
    };
    proof {
        Json::lemma_rep_seq(items@);
    }
    let ghost reps = Json::rep_seq(items@);
    proof {
        assert(sp_parse_text(text@) == Option::Some(JsonRep::Arr(reps)));
    }
    let mut out: Vec<Resource> = Vec::new();
    let n = items.len();
    let mut k: usize = 0;
    while k < n
        invariant
            n == items@.len(),
            k <= n,
            sp_parse_text(text@) == Option::Some(JsonRep::Arr(reps)),
            reps == Json::rep_seq(items@),
            reps.len() == n,
            forall|i: int| 0 <= i < n ==> #[trigger] reps[i] == (items@[i])@,
            resources_of_items(reps.take(k as int)) == Option::Some(
                out@.map(|i: int, x: Resource| (x.id@, x.url@)),
            ),
        decreases n - k,
    {
        let item_pairs = match &items[k] {
            Json::Obj(pairs) => pairs,
            _ => {
                proof {
                    lemma_rep_variant(&items[k as int]);
                    lemma_resources_of_items_none(reps, k as int);
                }
                return Result::Err(DecodeError { pos: 0, kind: DecodeErrorKind::Shape });
            },
        };
        proof {
            assert((items@[k as int])@ == JsonRep::Obj(Json::rep_pairs(item_pairs@)));
        }
        let id = match lookup_member(item_pairs, "id") {
            Option::Some(Json::Str(s2)) => s2,
            Option::Some(other) => {
                proof {
                    lemma_rep_variant(&other);
                    assert(resource_of_rep(reps[k as int]) is None);
                    lemma_resources_of_items_none(reps, k as int);
                }
                return Result::Err(DecodeError { pos: 0, kind: DecodeErrorKind::Shape });
            },
            Option::None => {
                proof {
                    assert(resource_of_rep(reps[k as int]) is None);
                    lemma_resources_of_items_none(reps, k as int);
                }
                return Result::Err(DecodeError { pos: 0, kind: DecodeErrorKind::Shape });
            },
        };
        let url = match lookup_member(item_pairs, "url") {
            Option::Some(Json::Str(s2)) => s2,
            Option::Some(other) => {
                proof {
                    lemma_rep_variant(&other);
                    assert(resource_of_rep(reps[k as int]) is None);
                    lemma_resources_of_items_none(reps, k as int);
                }
                return Result::Err(DecodeError { pos: 0, kind: DecodeErrorKind::Shape });
            },
            Option::None => {
                proof {
                    assert(resource_of_rep(reps[k as int]) is None);
                    lemma_resources_of_items_none(reps, k as int);
                }
                return Result::Err(DecodeError { pos: 0, kind: DecodeErrorKind::Shape });
            },
        };
        let ghost pre_out = out@;
        let ghost iv = id@;
        let ghost uv = url@;
        out.push(Resource { id, url });
        k = k + 1;
        proof {
            assert(resource_of_rep(reps[k - 1]) == Option::Some((iv, uv)));
            assert(reps.take(k as int).drop_last() =~= reps.take(k as int - 1));
            assert(reps.take(k as int).last() == reps[k - 1]);
            assert(out@.map(|i: int, x: Resource| (x.id@, x.url@)) =~= pre_out.map(
                |i: int, x: Resource| (x.id@, x.url@),
            ).push((iv, uv)));
        }
    }
    proof {
        assert(reps.take(n as int) =~= reps);
    }
    Result::Ok(out)
}

/// Where one element fails to describe a resource, the whole array
/// decodes to nothing.
proof fn lemma_resources_of_items_none(items: Seq<JsonRep>, k: int)
    requires
        0 <= k < items.len(),
        resource_of_rep(items[k]) is None,
    ensures
        resources_of_items(items) is None,
    decreases items.len(),
{
    if items.len() > 0 {
        if k == items.len() - 1 {
            assert(items.last() == items[k]);
        } else {
            lemma_resources_of_items_none(items.drop_last(), k);
        }
    }
}


} // verus!
