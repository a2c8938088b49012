//! The collect variant's result cache: the latest structured response per
//! fetched resource, under last-write-wins semantics.

use vstd::prelude::*;
use crate::json::{Json, JsonRep};

verus! {

/// One HTTP resource under observation: an identifier and the URL that is
/// fetched each round.
#[derive(Debug)]
pub struct Resource {
    pub id: String,
    pub url: String,
}

/// The structured outcome of one successful fetch: the URL that answered,
/// the HTTP status code, and the body parsed as JSON.
#[derive(Debug)]
pub struct Response {
    pub url: String,
    pub status_code: u16,
    pub json: Json,
}

/// The key under which a resource is cached: its identifier and URL.
pub open spec fn resource_key(r: Resource) -> (Seq<char>, Seq<char>) {
    (r.id@, r.url@)
}

/// The mathematical shape of a recorded response.
pub open spec fn response_rep(r: Response) -> (Seq<char>, int, JsonRep) {
    (r.url@, r.status_code as int, r.json@)
}

/// The shape of one observation: a response, or none for a failed or
/// never-attempted fetch.
pub open spec fn obs_rep(o: Option<Response>) -> Option<(Seq<char>, int, JsonRep)> {
    match o {
        Option::None => Option::None,
        Option::Some(r) => Option::Some(response_rep(r)),
    }
}

impl Clone for Resource {
    fn clone(&self) -> (r: Self)
        ensures
            r == *self,
    {
        Resource { id: self.id.clone(), url: self.url.clone() }
    }
}

impl Clone for Response {
    fn clone(&self) -> (r: Self)
        ensures
            response_rep(r) == response_rep(*self),
    {
        Response {
            url: self.url.clone(),
            status_code: self.status_code,
            json: self.json.clone(),
        }
    }
}

/// The latest observation per resource.
///
/// Entries are kept in insertion order; each `(id, url)` key occurs at
/// most once.  Saving overwrites in place for a known key and appends for
/// a new one.
pub struct ResourceStore {
    responses: Vec<(Resource, Option<Response>)>,
}

impl ResourceStore {
    /// The store's entries: one key/observation pair per known resource,
    /// in insertion order.
    pub closed spec fn entries(self) -> Seq<
        ((Seq<char>, Seq<char>), Option<(Seq<char>, int, JsonRep)>),
    > {
        self.responses@.map(
            |i: int, p: (Resource, Option<Response>)| (resource_key(p.0), obs_rep(p.1)),
        )
    }

    /// Whether `key` names a known resource.
    pub open spec fn contains_key(self, key: (Seq<char>, Seq<char>)) -> bool {
        exists|i: int| 0 <= i < self.entries().len() && (#[trigger] self.entries()[i]).0 == key
    }

    /// The index of `key` among the entries.
    pub closed spec fn index_of(self, key: (Seq<char>, Seq<char>)) -> int {
        choose|i: int| 0 <= i < self.entries().len() && (#[trigger] self.entries()[i]).0 == key
    }

    /// The latest observation recorded for `key`.
    pub open spec fn value_of(self, key: (Seq<char>, Seq<char>)) -> Option<
        (Seq<char>, int, JsonRep),
    > {
        self.entries()[self.index_of(key)].1
    }

    /// Each resource key occurs exactly once.
    pub open spec fn wf(self) -> bool {
        forall|i: int, j: int|
            0 <= i < j < self.entries().len()
                ==> (#[trigger] self.entries()[i]).0 != (#[trigger] self.entries()[j]).0
    }

    /// How saving one observation changes the store: a known key's entry
    /// is overwritten in place, a new key's entry is appended, and no
    /// other entry moves.
    pub open spec fn saved(
        pre: ResourceStore,
        post: ResourceStore,
        key: (Seq<char>, Seq<char>),
        obs: Option<(Seq<char>, int, JsonRep)>,
    ) -> bool {
        &&& post.wf()
        &&& pre.contains_key(key) ==> post.entries() == pre.entries().update(
            pre.index_of(key),
            (key, obs),
        )
        &&& !pre.contains_key(key) ==> post.entries() == pre.entries().push((key, obs))
    }

    /// In a well-formed store, `index_of` names the one index holding
    /// `key`.
    pub proof fn lemma_index_of(self, key: (Seq<char>, Seq<char>))
        requires
            self.wf(),
            self.contains_key(key),
        ensures
            0 <= self.index_of(key) < self.entries().len(),
            (self.entries()[self.index_of(key)]).0 == key,
            forall|i: int|
                0 <= i < self.entries().len() && (#[trigger] self.entries()[i]).0 == key
                    ==> i == self.index_of(key),
    {
    }

    /// An empty store, then one entry per given resource, each without an
    /// observation yet.
    pub fn new(resources: Vec<Resource>) -> (store: ResourceStore)
        ensures
            store.wf(),
            forall|key: (Seq<char>, Seq<char>)|
                #[trigger] store.contains_key(key)
                    <==> exists|i: int|
                    0 <= i < resources@.len() && resource_key(#[trigger] resources@[i]) == key,
            forall|key: (Seq<char>, Seq<char>)|
                store.contains_key(key) ==> store.value_of(key) is None,
    {
        let mut store = ResourceStore { responses: Vec::new() };
        let n = resources.len();
        let mut k: usize = 0;
        while k < n
            invariant
                n == resources@.len(),
                k <= n,
                store.wf(),
                forall|key: (Seq<char>, Seq<char>)|
                    #[trigger] store.contains_key(key)
                        <==> exists|j: int|
                        0 <= j < k && resource_key(#[trigger] resources@[j]) == key,
                forall|i: int|
                    0 <= i < store.entries().len() ==> (#[trigger] store.entries()[i]).1 is None,
            decreases n - k,
        {
            let ghost pre = store;
            let r = resources[k].clone();
            let ghost key = resource_key(r);
            store.save_resource(r);
            proof {
                if pre.contains_key(key) {
                    pre.lemma_index_of(key);
                }
                assert forall|key2: (Seq<char>, Seq<char>)| #[trigger] store.contains_key(key2)
                    implies exists|j: int|
                    0 <= j < k + 1 && resource_key(#[trigger] resources@[j]) == key2 by {
                    let i = choose|i: int|
                        0 <= i < store.entries().len() && (#[trigger] store.entries()[i]).0 == key2;
                    if key2 == key {
                        assert(resource_key(resources@[k as int]) == key2);
                    } else {
                        assert((pre.entries()[i]).0 == key2);
                        assert(pre.contains_key(key2));
                        let j = choose|j: int|
                            0 <= j < k && resource_key(#[trigger] resources@[j]) == key2;
                        assert(0 <= j < k + 1 && resource_key(resources@[j]) == key2);
                    }
                }
                assert forall|key2: (Seq<char>, Seq<char>)|
                    exists|j: int|
                        0 <= j < k + 1 && resource_key(#[trigger] resources@[j])
                            == key2 implies #[trigger] store.contains_key(key2) by {
                    let j = choose|j: int|
                        0 <= j < k + 1 && resource_key(#[trigger] resources@[j]) == key2;
                    if key2 == key {
                        if pre.contains_key(key) {
                            assert((store.entries()[pre.index_of(key)]).0 == key2);
                        } else {
                            assert((store.entries()[store.entries().len() - 1]).0 == key2);
                        }
                    } else {
                        assert(resource_key(resources@[j]) == key2 && j < k);
                        assert(pre.contains_key(key2));
                        let i = choose|i: int|
                            0 <= i < pre.entries().len() && (#[trigger] pre.entries()[i]).0 == key2;
                        if pre.contains_key(key) {
                            assert((store.entries()[i]).0 == key2);
                        } else {
                            assert((store.entries()[i]).0 == key2);
                        }
                    }
                }
            }
            k = k + 1;
        }
        store
    }

    /// The current resources, in the store's order.
    pub fn resources(&self) -> (rs: Vec<Resource>)
        ensures
            rs@.len() == self.entries().len(),
            forall|i: int|
                0 <= i < rs@.len()
                    ==> resource_key(#[trigger] rs@[i]) == (self.entries()[i]).0,
    {
        let mut rs: Vec<Resource> = Vec::new();
        let n = self.responses.len();
        let mut k: usize = 0;
        while k < n
            invariant
                n == self.responses@.len(),
                k <= n,
                rs@.len() == k,
                forall|i: int|
                    0 <= i < k ==> resource_key(#[trigger] rs@[i]) == (self.entries()[i]).0,
            decreases n - k,
        {
            rs.push(self.responses[k].0.clone());
            k = k + 1;
        }
        rs
    }

    /// A point-in-time copy of every entry.
    pub fn responses(&self) -> (rs: Vec<(Resource, Option<Response>)>)
        ensures
            rs@.len() == self.entries().len(),
            forall|i: int|
                0 <= i < rs@.len()
                    ==> resource_key((#[trigger] rs@[i]).0) == (self.entries()[i]).0
                        && obs_rep(rs@[i].1) == (self.entries()[i]).1,
    {
        let mut rs: Vec<(Resource, Option<Response>)> = Vec::new();
        let n = self.responses.len();
        let mut k: usize = 0;
        while k < n
            invariant
                n == self.responses@.len(),
                k <= n,
                rs@.len() == k,
                forall|i: int|
                    0 <= i < k
                        ==> resource_key((#[trigger] rs@[i]).0) == (self.entries()[i]).0
                            && obs_rep(rs@[i].1) == (self.entries()[i]).1,
            decreases n - k,
        {
            let entry = &self.responses[k];
            let obs = match &entry.1 {
                Option::Some(resp) => Option::Some(resp.clone()),
                Option::None => Option::None,
            };
            rs.push((entry.0.clone(), obs));
            k = k + 1;
        }
        rs
    }

    /// Registers `resource`, clearing any previous observation for it:
    /// its state becomes "unknown" until the next fetch completes.
    pub fn save_resource(&mut self, resource: Resource)
        requires
            old(self).wf(),
        ensures
            ResourceStore::saved(
                *old(self),
                *final(self),
                resource_key(resource),
                Option::None,
            ),
    {
        self.save_response(resource, Option::None);
    }

    /// Records the outcome of one fetch of `resource`: unconditionally
    /// overwrites the previous observation, appending the key if it is
    /// new.
    pub fn save_response(&mut self, resource: Resource, response: Option<Response>)
        requires
            old(self).wf(),
        ensures
            ResourceStore::saved(
                *old(self),
                *final(self),
                resource_key(resource),
                obs_rep(response),
            ),
    {
        let ghost key = resource_key(resource);
        let n = self.responses.len();
        let mut k: usize = 0;
        while k < n
            invariant
                old(self).wf(),
                n == self.responses@.len(),
                k <= n,
                self == old(self),
                key == resource_key(resource),
                forall|i: int| 0 <= i < k ==> (#[trigger] self.entries()[i]).0 != key,
            decreases n - k,
        {
            if self.responses[k].0.id == resource.id && self.responses[k].0.url == resource.url {
                proof {
                    assert((old(self).entries()[k as int]).0 == key);
                    old(self).lemma_index_of(key);
                    assert(old(self).index_of(key) == k as int);
                }
                self.responses[k] = (resource, response);
                proof {
                    assert(self.entries() =~= old(self).entries().update(
                        k as int,
                        (key, obs_rep(response)),
                    ));
                    assert forall|i: int, j: int|
                        0 <= i < j < self.entries().len() implies (#[trigger] self.entries()[i]).0
                        != (#[trigger] self.entries()[j]).0 by {
                        assert((old(self).entries()[i]).0 != (old(self).entries()[j]).0);
                    }
                }
                return ;
            }
            k = k + 1;
        }
        proof {
            assert(!self.contains_key(key));
        }
        let ghost pre = self.entries();
        self.responses.push((resource, response));
        proof {
            assert(self.entries() =~= pre.push((key, obs_rep(response))));
            assert forall|i: int, j: int|
                0 <= i < j < self.entries().len() implies (#[trigger] self.entries()[i]).0
                != (#[trigger] self.entries()[j]).0 by {
                if j < self.entries().len() - 1 {
                    assert((old(self).entries()[i]).0 != (old(self).entries()[j]).0);
                } else {
                    assert((self.entries()[i]).0 == (old(self).entries()[i]).0);
                    assert(!old(self).contains_key(key));
                }
            }
        }
    }
}

/// Law: saving an observation never removes another resource's entry, and
/// the saved key is known afterwards.
pub proof fn lemma_save_preserves_keys(
    pre: ResourceStore,
    post: ResourceStore,
    key: (Seq<char>, Seq<char>),
    obs: Option<(Seq<char>, int, JsonRep)>,
    k2: (Seq<char>, Seq<char>),
)
    requires
        pre.wf(),
        ResourceStore::saved(pre, post, key, obs),
    ensures
        post.contains_key(k2) <==> pre.contains_key(k2) || k2 == key,
{
    if pre.contains_key(key) {
        pre.lemma_index_of(key);
        let k = pre.index_of(key);
        if pre.contains_key(k2) {
            let i = choose|i: int|
                0 <= i < pre.entries().len() && (#[trigger] pre.entries()[i]).0 == k2;
            if i == k {
                assert((post.entries()[k]).0 == key);
                assert((pre.entries()[i]).0 == k2);
            } else {
                assert((post.entries()[i]).0 == k2);
            }
        }
        if k2 == key {
            assert((post.entries()[k]).0 == k2);
        }
        if post.contains_key(k2) {
            let i = choose|i: int|
                0 <= i < post.entries().len() && (#[trigger] post.entries()[i]).0 == k2;
            if i == k {
                assert((pre.entries()[k]).0 == key);
            } else {
                assert((pre.entries()[i]).0 == k2);
            }
        }
    } else {
        if pre.contains_key(k2) {
            let i = choose|i: int|
                0 <= i < pre.entries().len() && (#[trigger] pre.entries()[i]).0 == k2;
            assert((post.entries()[i]).0 == k2);
        }
        if k2 == key {
            assert((post.entries()[post.entries().len() - 1]).0 == k2);
        }
        if post.contains_key(k2) {
            let i = choose|i: int|
                0 <= i < post.entries().len() && (#[trigger] post.entries()[i]).0 == k2;
            if i == post.entries().len() - 1 {
            } else {
                assert((pre.entries()[i]).0 == k2);
            }
        }
    }
}

/// Law: recording the same observation twice leaves the store exactly as
/// recording it once does.
pub proof fn lemma_save_idempotent(
    s0: ResourceStore,
    s1: ResourceStore,
    s2: ResourceStore,
    key: (Seq<char>, Seq<char>),
    obs: Option<(Seq<char>, int, JsonRep)>,
)
    requires
        s0.wf(),
        ResourceStore::saved(s0, s1, key, obs),
        ResourceStore::saved(s1, s2, key, obs),
    ensures
        s2.entries() == s1.entries(),
{
    lemma_save_preserves_keys(s0, s1, key, obs, key);
    if s0.contains_key(key) {
        s0.lemma_index_of(key);
        let k = s0.index_of(key);
        assert((s1.entries()[k]).0 == key);
        s1.lemma_index_of(key);
        assert(s1.index_of(key) == k);
        assert(s2.entries() =~= s1.entries());
    } else {
        let k = s0.entries().len() as int;
        assert((s1.entries()[k]).0 == key);
        s1.lemma_index_of(key);
        assert(s1.index_of(key) == k);
        assert(s2.entries() =~= s1.entries());
    }
}

/// Law: when two observations for the same resource are saved in
/// sequence, the store ends exactly as if only the second had been saved;
/// the first is fully overwritten.
pub proof fn lemma_save_last_write_wins(
    s0: ResourceStore,
    s1: ResourceStore,
    s2: ResourceStore,
    key: (Seq<char>, Seq<char>),
    first: Option<(Seq<char>, int, JsonRep)>,
    second: Option<(Seq<char>, int, JsonRep)>,
)
    requires
        s0.wf(),
        ResourceStore::saved(s0, s1, key, first),
        ResourceStore::saved(s1, s2, key, second),
    ensures
        ResourceStore::saved(s0, s2, key, second),
{
    lemma_save_preserves_keys(s0, s1, key, first, key);
    if s0.contains_key(key) {
        s0.lemma_index_of(key);
        let k = s0.index_of(key);
        assert((s1.entries()[k]).0 == key);
        s1.lemma_index_of(key);
        assert(s1.index_of(key) == k);
        assert(s2.entries() =~= s0.entries().update(k, (key, second)));
    } else {
        let k = s0.entries().len() as int;
        assert((s1.entries()[k]).0 == key);
        s1.lemma_index_of(key);
        assert(s1.index_of(key) == k);
        assert(s2.entries() =~= s0.entries().push((key, second)));
    }
}

/// Law: a resource that was added appears verbatim, same identifier and
/// same URL, in any subsequent listing of the resource set; `rs` here is
/// any listing of `post`, described exactly as `resources` describes its
/// result.
pub proof fn lemma_added_resource_is_listed(
    pre: ResourceStore,
    post: ResourceStore,
    resource: Resource,
    obs: Option<(Seq<char>, int, JsonRep)>,
    rs: Seq<Resource>,
)
    requires
        pre.wf(),
        ResourceStore::saved(pre, post, resource_key(resource), obs),
        rs.len() == post.entries().len(),
        forall|i: int|
            0 <= i < rs.len() ==> resource_key(#[trigger] rs[i]) == (post.entries()[i]).0,
    ensures
        exists|i: int|
            0 <= i < rs.len() && (#[trigger] rs[i]).id@ == resource.id@ && rs[i].url@
                == resource.url@,
{
    let key = resource_key(resource);
    if pre.contains_key(key) {
        pre.lemma_index_of(key);
        let k = pre.index_of(key);
        assert((post.entries()[k]).0 == key);
        assert(resource_key(rs[k]) == key);
        assert(rs[k].id@ == resource.id@ && rs[k].url@ == resource.url@);
    } else {
        let k = post.entries().len() - 1;
        assert((post.entries()[k]).0 == key);
        assert(resource_key(rs[k]) == key);
        assert(rs[k].id@ == resource.id@ && rs[k].url@ == resource.url@);
    }
}

} // verus!
