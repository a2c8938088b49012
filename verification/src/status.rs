//! The probe variant's result cache: the latest boolean reachability
//! observation per target URL, plus the snapshot document served by the
//! status endpoint.

use vstd::prelude::*;

verus! {

/// One endpoint under observation, together with its latest recorded
/// reachability outcome.
#[derive(Debug)]
pub struct Target {
    pub url: String,
    pub reachable: bool,
}

/// A peer endpoint, as the earlier peer-probing surface names the same
/// observation.
#[derive(Debug)]
pub struct Peer {
    pub url: String,
    pub reachable: bool,
}

/// A consistent point-in-time snapshot of every known target.
pub struct Status {
    pub targets: Vec<Target>,
}

/// Whether some entry of `s` holds the key `u`.
spec fn key_present(s: Seq<(String, bool)>, u: Seq<char>) -> bool {
    exists|i: int| 0 <= i < s.len() && (#[trigger] s[i]).0@ == u
}

/// Whether `u` occurs among the first `k` URLs of `urls`.
spec fn url_in_prefix(urls: Seq<String>, k: int, u: Seq<char>) -> bool {
    exists|j: int| 0 <= j < k && (#[trigger] urls[j])@ == u
}

/// The latest-known reachability outcome per target URL.
///
/// Entries are kept in insertion order; each URL occurs at most once.
/// Recording an outcome overwrites the previous one (last write wins);
/// recording for a URL not yet known adds it, so a record never fails.
pub struct StatusCache {
    state: Vec<(String, bool)>,
}

impl StatusCache {
    /// The cache's entries: one `(url, reachable)` pair per known target,
    /// in insertion order.
    pub closed spec fn entries(self) -> Seq<(Seq<char>, bool)> {
        self.state@.map(|i: int, p: (String, bool)| (p.0@, p.1))
    }

    /// Whether `url` is a known target.
    pub open spec fn contains_url(self, url: Seq<char>) -> bool {
        exists|i: int| 0 <= i < self.entries().len() && (#[trigger] self.entries()[i]).0 == url
    }

    /// The index of `url` among the entries.
    pub closed spec fn index_of(self, url: Seq<char>) -> int {
        choose|i: int| 0 <= i < self.entries().len() && (#[trigger] self.entries()[i]).0 == url
    }

    /// The latest recorded outcome for `url`.
    pub open spec fn value_of(self, url: Seq<char>) -> bool {
        self.entries()[self.index_of(url)].1
    }

    /// Each target URL occurs exactly once.
    pub open spec fn wf(self) -> bool {
        forall|i: int, j: int|
            0 <= i < j < self.entries().len()
                ==> (#[trigger] self.entries()[i]).0 != (#[trigger] self.entries()[j]).0
    }

    /// How recording one observation changes a cache: a known target's
    /// entry is overwritten in place, a new target's entry is appended,
    /// and no other entry moves.  A record is unconditional and never
    /// fails.
    pub open spec fn recorded(pre: StatusCache, post: StatusCache, url: Seq<char>, outcome: bool) -> bool {
        &&& post.wf()
        &&& pre.contains_url(url) ==> post.entries() == pre.entries().update(
            pre.index_of(url),
            (url, outcome),
        )
        &&& !pre.contains_url(url) ==> post.entries() == pre.entries().push((url, outcome))
    }

    /// In a well-formed cache, `index_of` names the one index that holds
    /// `url`.
    pub proof fn lemma_index_of(self, url: Seq<char>)
        requires
            self.wf(),
            self.contains_url(url),
        ensures
            0 <= self.index_of(url) < self.entries().len(),
            (self.entries()[self.index_of(url)]).0 == url,
            forall|i: int|
                0 <= i < self.entries().len() && (#[trigger] self.entries()[i]).0 == url
                    ==> i == self.index_of(url),
    {
    }

    /// Bridges the abstract entries view and the underlying storage.
    proof fn lemma_key_present(self, url: Seq<char>)
        ensures
            self.contains_url(url) <==> key_present(self.state@, url),
    {
        if self.contains_url(url) {
            let i = choose|i: int|
                0 <= i < self.entries().len() && (#[trigger] self.entries()[i]).0 == url;
            assert((self.state@[i]).0@ == url);
        }
        if key_present(self.state@, url) {
            let i = choose|i: int| 0 <= i < self.state@.len() && (#[trigger] self.state@[i]).0@ == url;
            assert((self.entries()[i]).0 == url);
        }
    }

    /// Creates a cache that knows every URL of `target_urls` and nothing
    /// else, each in the initial "unreachable" state.
    pub fn new(target_urls: &Vec<String>) -> (cache: StatusCache)
        ensures
            cache.wf(),
            forall|url: Seq<char>|
                #[trigger] cache.contains_url(url)
                    <==> exists|i: int|
                    0 <= i < target_urls@.len() && (#[trigger] target_urls@[i])@ == url,
            forall|url: Seq<char>| cache.contains_url(url) ==> !cache.value_of(url),
    {
        let mut state: Vec<(String, bool)> = Vec::new();
        let n = target_urls.len();
        let mut k: usize = 0;
        while k < n
            invariant
                n == target_urls@.len(),
                k <= n,
                forall|i: int, j: int|
                    0 <= i < j < state@.len()
                        ==> (#[trigger] state@[i]).0@ != (#[trigger] state@[j]).0@,
                forall|i: int| 0 <= i < state@.len() ==> !(#[trigger] state@[i]).1,
                forall|i: int|
                    0 <= i < state@.len()
                        ==> url_in_prefix(target_urls@, k as int, (#[trigger] state@[i]).0@),
                forall|j: int| 0 <= j < k ==> key_present(state@, (#[trigger] target_urls@[j])@),
            decreases n - k,
        {
            let url = &target_urls[k];
            let ghost old_state = state@;
            let mut found = false;
            let m = state.len();
            let mut t: usize = 0;
            while t < m
                invariant
                    m == state@.len(),
                    t <= m,
                    found <==> exists|i: int| 0 <= i < t && (#[trigger] state@[i]).0@ == url@,
                decreases m - t,
            {
                if state[t].0 == *url {
                    found = true;
                }
                t = t + 1;
            }
            if !found {
                state.push((url.clone(), false));
            }
            proof {
                assert forall|i: int| 0 <= i < state@.len() implies url_in_prefix(
                    target_urls@,
                    k + 1,
                    (#[trigger] state@[i]).0@,
                ) by {
                    if i < old_state.len() {
                        assert(url_in_prefix(target_urls@, k as int, (old_state[i]).0@));
                        let j0 = choose|j: int|
                            0 <= j < k && (#[trigger] target_urls@[j])@ == (old_state[i]).0@;
                        assert(0 <= j0 < k + 1 && (target_urls@[j0])@ == (state@[i]).0@);
                    } else {
                        assert((target_urls@[k as int])@ == (state@[i]).0@);
                    }
                }
                assert forall|j: int| 0 <= j < k + 1 implies key_present(
                    state@,
                    (#[trigger] target_urls@[j])@,
                ) by {
                    if j < k {
                        let i0 = choose|i: int|
                            0 <= i < old_state.len() && (#[trigger] old_state[i]).0@
                                == (target_urls@[j])@;
                        assert((state@[i0]).0@ == (target_urls@[j])@);
                    } else if found {
                        let i0 = choose|i: int|
                            0 <= i < old_state.len() && (#[trigger] old_state[i]).0@ == url@;
                        assert((state@[i0]).0@ == (target_urls@[j])@);
                    } else {
                        assert((state@[old_state.len() as int]).0@ == (target_urls@[j])@);
                    }
                }
            }
            k = k + 1;
        }
        let cache = StatusCache { state };
        proof {
            assert forall|url: Seq<char>| #[trigger] cache.contains_url(url) implies exists|i: int|
                0 <= i < target_urls@.len() && (#[trigger] target_urls@[i])@ == url by {
                cache.lemma_key_present(url);
                let i = choose|i: int|
                    0 <= i < cache.state@.len() && (#[trigger] cache.state@[i]).0@ == url;
                assert(url_in_prefix(target_urls@, n as int, url));
            }
            assert forall|url: Seq<char>|
                exists|i: int|
                    0 <= i < target_urls@.len() && (#[trigger] target_urls@[i])@
                        == url implies #[trigger] cache.contains_url(url) by {
                let j = choose|j: int|
                    0 <= j < target_urls@.len() && (#[trigger] target_urls@[j])@ == url;
                assert(key_present(cache.state@, url));
                cache.lemma_key_present(url);
            }
            assert forall|url: Seq<char>| cache.contains_url(url) implies !cache.value_of(url) by {
                cache.lemma_index_of(url);
                let i = cache.index_of(url);
                assert(!(cache.state@[i]).1);
            }
        }
        cache
    }

    /// Builds the snapshot document: one entry per known target, in the
    /// cache's own order, each carrying its latest outcome.
    pub fn poll(&self) -> (status: Status)
        ensures
            status.targets@.len() == self.entries().len(),
            forall|i: int|
                0 <= i < status.targets@.len()
                    ==> (#[trigger] status.targets@[i]).url@ == (self.entries()[i]).0
                        && status.targets@[i].reachable == (self.entries()[i]).1,
    {
        let mut targets: Vec<Target> = Vec::new();
        let n = self.state.len();
        let mut k: usize = 0;
        while k < n
            invariant
                n == self.state@.len(),
                k <= n,
                targets@.len() == k,
                forall|i: int|
                    0 <= i < k
                        ==> (#[trigger] targets@[i]).url@ == (self.entries()[i]).0
                            && targets@[i].reachable == (self.entries()[i]).1,
            decreases n - k,
        {
            let entry = &self.state[k];
            targets.push(Target { url: entry.0.clone(), reachable: entry.1 });
            k = k + 1;
        }
        Status { targets }
    }

    /// Records the outcome `reachable` for `target_url`: overwrites the
    /// previous observation where the target is known, and records the
    /// target implicitly by key presence where it is not.
    fn update(&mut self, target_url: String, reachable: bool)
        requires
            old(self).wf(),
        ensures
            StatusCache::recorded(*old(self), *final(self), target_url@, reachable),
    {
        let ghost u: Seq<char> = target_url@;
        let n = self.state.len();
        let mut k: usize = 0;
        while k < n
            invariant
                old(self).wf(),
                n == self.state@.len(),
                k <= n,
                self == old(self),
                u == target_url@,
                forall|i: int| 0 <= i < k ==> (#[trigger] self.entries()[i]).0 != u,
            decreases n - k,
        {
            if self.state[k].0 == target_url {
                proof {
                    assert((old(self).entries()[k as int]).0 == u);
                    old(self).lemma_index_of(u);
                    assert(old(self).index_of(u) == k as int);
                }
                self.state[k] = (target_url, reachable);
                proof {
                    assert(self.entries() =~= old(self).entries().update(
                        k as int,
                        (u, reachable),
                    ));
                    assert forall|i: int, j: int|
                        0 <= i < j < self.entries().len() implies (#[trigger] self.entries()[i]).0
                        != (#[trigger] self.entries()[j]).0 by {
                        assert((old(self).entries()[i]).0 != (old(self).entries()[j]).0);
                    }
                }
                return ;
            }
            k = k + 1;
        }
        proof {
            assert(!self.contains_url(u));
        }
        let ghost pre = self.entries();
        self.state.push((target_url, reachable));
        proof {
            assert(self.entries() =~= pre.push((u, reachable)));
            assert forall|i: int, j: int|
                0 <= i < j < self.entries().len() implies (#[trigger] self.entries()[i]).0
                != (#[trigger] self.entries()[j]).0 by {
                if j < self.entries().len() - 1 {
                    assert((old(self).entries()[i]).0 != (old(self).entries()[j]).0);
                } else {
                    assert((self.entries()[i]).0 == (old(self).entries()[i]).0);
                    assert(!old(self).contains_url(u));
                }
            }
        }
    }

    /// Records that `target_url` answered its probe.
    pub fn reachable(&mut self, target_url: String)
        requires
            old(self).wf(),
        ensures
            StatusCache::recorded(*old(self), *final(self), target_url@, true),
    {
        self.update(target_url, true);
    }

    /// Records that `target_url` failed its probe (refused, timed out, or
    /// was unreachable).
    pub fn unreachable(&mut self, target_url: String)
        requires
            old(self).wf(),
        ensures
            StatusCache::recorded(*old(self), *final(self), target_url@, false),
    {
        self.update(target_url, false);
    }
}

/// Law: recording an observation never removes another target's entry,
/// and the recorded URL is known afterwards.
pub proof fn lemma_record_preserves_keys(
    pre: StatusCache,
    post: StatusCache,
    url: Seq<char>,
    outcome: bool,
    u: Seq<char>,
)
    requires
        pre.wf(),
        StatusCache::recorded(pre, post, url, outcome),
    ensures
        post.contains_url(u) <==> pre.contains_url(u) || u == url,
{
    if pre.contains_url(url) {
        pre.lemma_index_of(url);
        let k = pre.index_of(url);
        if pre.contains_url(u) {
            let i = choose|i: int|
                0 <= i < pre.entries().len() && (#[trigger] pre.entries()[i]).0 == u;
            if i == k {
                assert((post.entries()[k]).0 == url);
                assert((pre.entries()[i]).0 == u);
            } else {
                assert((post.entries()[i]).0 == u);
            }
        }
        if u == url {
            assert((post.entries()[k]).0 == u);
        }
        if post.contains_url(u) {
            let i = choose|i: int|
                0 <= i < post.entries().len() && (#[trigger] post.entries()[i]).0 == u;
            if i == k {
                assert((pre.entries()[k]).0 == url);
            } else {
                assert((pre.entries()[i]).0 == u);
            }
        }
    } else {
        if pre.contains_url(u) {
            let i = choose|i: int|
                0 <= i < pre.entries().len() && (#[trigger] pre.entries()[i]).0 == u;
            assert((post.entries()[i]).0 == u);
        }
        if u == url {
            assert((post.entries()[post.entries().len() - 1]).0 == u);
        }
        if post.contains_url(u) {
            let i = choose|i: int|
                0 <= i < post.entries().len() && (#[trigger] post.entries()[i]).0 == u;
            if i == post.entries().len() - 1 {
            } else {
                assert((pre.entries()[i]).0 == u);
            }
        }
    }
}

/// Law: after a dispatch round's observations are recorded, a snapshot
/// still holds an entry for every target the cache knows; `status` here is
/// any snapshot of `cache`, described exactly as `poll` describes its
/// result.
pub proof fn lemma_snapshot_covers_targets(cache: StatusCache, status: Status, url: Seq<char>)
    requires
        cache.contains_url(url),
        status.targets@.len() == cache.entries().len(),
        forall|i: int|
            0 <= i < status.targets@.len()
                ==> (#[trigger] status.targets@[i]).url@ == (cache.entries()[i]).0
                    && status.targets@[i].reachable == (cache.entries()[i]).1,
    ensures
        exists|i: int|
            0 <= i < status.targets@.len() && (#[trigger] status.targets@[i]).url@ == url,
{
    let i = choose|i: int| 0 <= i < cache.entries().len() && (#[trigger] cache.entries()[i]).0 == url;
    assert(status.targets@[i].url@ == url);
}

/// Law: recording the same observation twice leaves the cache exactly as
/// recording it once does.
pub proof fn lemma_record_idempotent(
    c0: StatusCache,
    c1: StatusCache,
    c2: StatusCache,
    url: Seq<char>,
    outcome: bool,
)
    requires
        c0.wf(),
        StatusCache::recorded(c0, c1, url, outcome),
        StatusCache::recorded(c1, c2, url, outcome),
    ensures
        c2.entries() == c1.entries(),
{
    lemma_record_preserves_keys(c0, c1, url, outcome, url);
    if c0.contains_url(url) {
        c0.lemma_index_of(url);
        let k = c0.index_of(url);
        assert((c1.entries()[k]).0 == url);
        c1.lemma_index_of(url);
        assert(c1.index_of(url) == k);
        assert(c2.entries() =~= c1.entries());
    } else {
        let k = c0.entries().len() as int;
        assert((c1.entries()[k]).0 == url);
        c1.lemma_index_of(url);
        assert(c1.index_of(url) == k);
        assert(c2.entries() =~= c1.entries());
    }
}

/// Law: when two observations for the same target are recorded in
/// sequence, the outcome is exactly that of recording the second one
/// alone; the first is fully overwritten.
pub proof fn lemma_last_write_wins(
    c0: StatusCache,
    c1: StatusCache,
    c2: StatusCache,
    url: Seq<char>,
    first: bool,
    second: bool,
)
    requires
        c0.wf(),
        StatusCache::recorded(c0, c1, url, first),
        StatusCache::recorded(c1, c2, url, second),
    ensures
        StatusCache::recorded(c0, c2, url, second),
{
    lemma_record_preserves_keys(c0, c1, url, first, url);
    if c0.contains_url(url) {
        c0.lemma_index_of(url);
        let k = c0.index_of(url);
        assert((c1.entries()[k]).0 == url);
        c1.lemma_index_of(url);
        assert(c1.index_of(url) == k);
        assert(c2.entries() =~= c0.entries().update(k, (url, second)));
    } else {
        let k = c0.entries().len() as int;
        assert((c1.entries()[k]).0 == url);
        c1.lemma_index_of(url);
        assert(c1.index_of(url) == k);
        assert(c2.entries() =~= c0.entries().push((url, second)));
    }
}

} // verus!
