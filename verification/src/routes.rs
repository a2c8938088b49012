//! Request routing: which operation a method and path name, and the
//! sanitizing of asset paths.

use vstd::prelude::*;
use crate::text::{chars_start_with, chars_to_string, str_eq, str_to_chars};

verus! {

/// The operations the REST surface offers.
pub enum Route {
    /// The probe variant's snapshot read.
    GetStatus,
    /// The current resource listing.
    GetResources,
    /// Adding a resource.
    PostResources,
    /// The responses report.
    GetResponses,
    /// A synthetic example report.
    GetResponsesExample,
    /// Recording reachability hits.
    PostHits,
    /// The index page.
    GetIndex,
    /// A bundled asset, by its sanitized name.
    GetAsset(String),
    /// Anything else.
    NotFound,
}

/// Whether `path` names the index page: the bare root, or the root with a
/// query string.
pub open spec fn is_index_path(path: Seq<char>) -> bool {
    path == "/"@ || (path.len() >= 2 && path.take(2) == "/?"@)
}

/// Whether `path` lies under the asset prefix.
pub open spec fn is_asset_path(path: Seq<char>) -> bool {
    path.len() >= "/assets/"@.len() && path.take("/assets/"@.len() as int) == "/assets/"@
}

/// `s` with every ".." pair removed, scanning left to right.
pub open spec fn strip_dotdot(s: Seq<char>) -> Seq<char>
    decreases s.len(),
{
    if s.len() >= 2 && s[0] == '.' && s[1] == '.' {
        strip_dotdot(s.skip(2))
    } else if s.len() == 0 {
        s
    } else {
        seq![s[0]] + strip_dotdot(s.skip(1))
    }
}

/// The asset name `path` refers to: the part after the asset prefix, with
/// traversal segments stripped.
pub open spec fn asset_name_of(path: Seq<char>) -> Seq<char> {
    strip_dotdot(path.skip("/assets/"@.len() as int))
}

/// Removes every ".." pair from `s`, scanning left to right.
pub fn remove_dotdot(s: &Vec<char>) -> (r: Vec<char>)
    ensures
        r@ == strip_dotdot(s@),
{
    let mut out: Vec<char> = Vec::new();
    let n = s.len();
    let mut k: usize = 0;
    proof {
        assert(s@.skip(0) =~= s@);
        assert(out@ + strip_dotdot(s@) =~= strip_dotdot(s@));
    }
    while k < n
        invariant
            n == s@.len(),
            k <= n,
            strip_dotdot(s@) == out@ + strip_dotdot(s@.skip(k as int)),
        decreases n - k,
    {
        let ghost pre = out@;
        if k + 1 < n && s[k] == '.' && s[k + 1] == '.' {
            proof {
                assert(s@.skip(k as int)[0] == '.' && s@.skip(k as int)[1] == '.');
                assert(s@.skip(k as int).skip(2) =~= s@.skip(k as int + 2));
                assert(strip_dotdot(s@.skip(k as int)) == strip_dotdot(s@.skip(k as int + 2)));
            }
            k = k + 2;
        } else {
            out.push(s[k]);
            proof {
                if s@.skip(k as int).len() >= 2 && s@.skip(k as int)[0] == '.' && s@.skip(
                    k as int,
                )[1] == '.' {
                    assert(false);
                }
                assert(s@.skip(k as int)[0] == s@[k as int]);
                assert(s@.skip(k as int).skip(1) =~= s@.skip(k as int + 1));
                assert(strip_dotdot(s@.skip(k as int)) == seq![s@[k as int]] + strip_dotdot(
                    s@.skip(k as int + 1),
                ));
                assert(out@ + strip_dotdot(s@.skip(k as int + 1)) =~= pre + strip_dotdot(
                    s@.skip(k as int),
                ));
            }
            k = k + 1;
        }
    }
    proof {
        assert(s@.skip(n as int) =~= Seq::<char>::empty());
        assert(strip_dotdot(s@) =~= out@);
    }
    out
}

/// Names the operation that `method` and `path` address, exactly as the
/// table of routes reads: the snapshot and report reads, the two writes,
/// the index page, sanitized asset lookups, and not-found for the rest.
pub fn route(method: &str, path: &str) -> (r: Route)
    ensures
        method@ == "GET"@ && path@ == "/status"@ <==> r == Route::GetStatus,
        method@ == "GET"@ && path@ == "/resources"@ <==> r == Route::GetResources,
        method@ == "POST"@ && path@ == "/resources"@ <==> r == Route::PostResources,
        method@ == "GET"@ && path@ == "/responses"@ <==> r == Route::GetResponses,
        method@ == "GET"@ && path@ == "/responses/example"@ <==> r == Route::GetResponsesExample,
        method@ == "POST"@ && path@ == "/hits"@ <==> r == Route::PostHits,
        (method@ == "GET"@ && is_index_path(path@) && !(path@ == "/status"@ || path@
            == "/resources"@ || path@ == "/responses"@ || path@ == "/responses/example"@)) <==> r
            == Route::GetIndex,
        (r matches Route::GetAsset(name) ==> method@ == "GET"@ && is_asset_path(path@) && name@
            == asset_name_of(path@)),
        (method@ == "GET"@ && is_asset_path(path@) && !(path@ == "/status"@ || path@
            == "/resources"@ || path@ == "/responses"@ || path@ == "/responses/example"@
            || is_index_path(path@))) ==> r matches Route::GetAsset(_),
{
    proof {
        reveal_strlit("GET");
        reveal_strlit("POST");
        reveal_strlit("/status");
        reveal_strlit("/resources");
        reveal_strlit("/responses");
        reveal_strlit("/responses/example");
        reveal_strlit("/hits");
        reveal_strlit("/");
        reveal_strlit("/?");
        reveal_strlit("/assets/");
        assert("GET"@.len() == 3);
        assert("POST"@.len() == 4);
        assert("/status"@.len() == 7);
        assert("/resources"@.len() == 10);
        assert("/responses"@.len() == 10);
        assert("/responses/example"@.len() == 18);
        assert("/hits"@.len() == 5);
        assert("/"@.len() == 1);
        assert("/?"@.len() == 2);
        assert("/resources"@[4] == 'o');
        assert("/responses"@[4] == 'p');
        assert("GET"@ != "POST"@);
        assert("/status"@ != "/resources"@);
        assert("/status"@ != "/responses"@);
        assert("/status"@ != "/responses/example"@);
        assert("/status"@ != "/hits"@);
        assert("/resources"@ != "/responses"@);
        assert("/resources"@ != "/responses/example"@);
        assert("/resources"@ != "/hits"@);
        assert("/responses"@ != "/responses/example"@);
        assert("/responses"@ != "/hits"@);
        assert("/assets/"@.len() == 8);
        assert forall|p: Seq<char>| #[trigger] is_index_path(p) implies p != "/status"@ && p
            != "/resources"@ && p != "/responses"@ && p != "/responses/example"@ && p
            != "/hits"@ by {
            if p == "/"@ {
            } else {
                assert(p.take(2)[1] == p[1]);
                assert(p[1] == '?');
            }
        }
        assert forall|p: Seq<char>| #[trigger] is_asset_path(p) implies p != "/status"@ && p
            != "/resources"@ && p != "/responses"@ && p != "/responses/example"@ && p != "/hits"@
            && !is_index_path(p) by {
            assert(p.take(8)[1] == p[1]);
            assert(p[1] == 'a');
            if is_index_path(p) {
                if p == "/"@ {
                    assert(false);
                } else {
                    assert(p.take(2)[1] == p[1]);
                    assert(false);
                }
            }
        }
    }
    let get = str_eq(method, "GET");
    let post = str_eq(method, "POST");
    if get && str_eq(path, "/status") {
        return Route::GetStatus;
    }
    if get && str_eq(path, "/resources") {
        return Route::GetResources;
    }
    if post && str_eq(path, "/resources") {
        return Route::PostResources;
    }
    if get && str_eq(path, "/responses") {
        return Route::GetResponses;
    }
    if get && str_eq(path, "/responses/example") {
        return Route::GetResponsesExample;
    }
    if post && str_eq(path, "/hits") {
        return Route::PostHits;
    }
    if get {
        let chars = str_to_chars(path);
        let query_prefix = str_to_chars("/?");
        if str_eq(path, "/") || chars_start_with(&chars, &query_prefix) {
            return Route::GetIndex;
        }
        let asset_prefix = str_to_chars("/assets/");
        if chars_start_with(&chars, &asset_prefix) {
            let mut rest: Vec<char> = Vec::new();
            let n = chars.len();
            let mut k: usize = 8;
            proof {
                assert(asset_prefix@.len() == 8) by {
                    reveal_strlit("/assets/");
                }
            }
            while k < n
                invariant
                    n == chars@.len(),
                    8 <= k <= n || (k == 8 && n < 8),
                    k <= n || k == 8,
                    rest@ == chars@.skip(8).take(k - 8),
                decreases n - k,
            {
                rest.push(chars[k]);
                k = k + 1;
                proof {
                    assert(rest@ =~= chars@.skip(8).take(k - 8));
                }
            }
            proof {
                assert(rest@ =~= chars@.skip(8));
                assert(path@.skip("/assets/"@.len() as int) == chars@.skip(8)) by {
                    reveal_strlit("/assets/");
                }
            }
            let clean = remove_dotdot(&rest);
            let name = chars_to_string(&clean);
            return Route::GetAsset(name);
        }
        return Route::NotFound;
    }
    Route::NotFound
}

} // verus!
