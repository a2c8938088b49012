//! The matrix variant's result cache: a directed reachability matrix of
//! "source last confirmed contact with destination at time T" edges.
//!
//! Absence of an edge means "never observed", not "unreachable"; an edge
//! is never deleted, and staleness (a large `now - last_contact`) is the
//! consumers' signal of unreachability.

use vstd::prelude::*;
use crate::json::{Json, JsonRep};
use crate::resource::{obs_rep, resource_key, Resource, Response};

verus! {

/// One reported contact: `src` heard from (or reached) `dst` at Unix time
/// `time`.
#[derive(Debug)]
pub struct Hit {
    pub src: String,
    pub dst: String,
    pub time: i64,
}

/// An inner row: the latest contact timestamp per destination.
type Row = Vec<(String, i64)>;

/// The directed reachability matrix: for each source node, the latest
/// contact timestamp per destination node.
///
/// Rows and row entries are kept in insertion order; each source occurs
/// at most once, and each destination at most once within a row.
pub struct TimerSet {
    hm: Vec<(String, Row)>,
}

/// The entries of one row, as character sequences.
pub open spec fn row_entries(row: Row) -> Seq<(Seq<char>, int)> {
    row@.map(|i: int, p: (String, i64)| (p.0@, p.1 as int))
}

/// Whether a row holds `dst`.
pub open spec fn row_contains(row: Seq<(Seq<char>, int)>, dst: Seq<char>) -> bool {
    exists|i: int| 0 <= i < row.len() && (#[trigger] row[i]).0 == dst
}

/// The index of `dst` in a row.
pub open spec fn row_index_of(row: Seq<(Seq<char>, int)>, dst: Seq<char>) -> int {
    choose|i: int| 0 <= i < row.len() && (#[trigger] row[i]).0 == dst
}

/// A row with each destination at most once.
pub open spec fn row_wf(row: Seq<(Seq<char>, int)>) -> bool {
    forall|i: int, j: int| 0 <= i < j < row.len() ==> (#[trigger] row[i]).0 != (#[trigger] row[j]).0
}

/// Whether `rows` holds a row for `src`.
pub open spec fn rows_contains(rows: Seq<(Seq<char>, Seq<(Seq<char>, int)>)>, src: Seq<char>) -> bool {
    exists|i: int| 0 <= i < rows.len() && (#[trigger] rows[i]).0 == src
}

/// The index of `src` among `rows`.
pub open spec fn rows_index_of(rows: Seq<(Seq<char>, Seq<(Seq<char>, int)>)>, src: Seq<char>) -> int {
    choose|i: int| 0 <= i < rows.len() && (#[trigger] rows[i]).0 == src
}

/// A row after one contact is recorded in it.
pub open spec fn row_after(row: Seq<(Seq<char>, int)>, dst: Seq<char>, time: int) -> Seq<
    (Seq<char>, int),
> {
    if row_contains(row, dst) {
        row.update(row_index_of(row, dst), (dst, time))
    } else {
        row.push((dst, time))
    }
}

/// The matrix's rows after one contact is recorded.
pub open spec fn rows_after(
    rows: Seq<(Seq<char>, Seq<(Seq<char>, int)>)>,
    src: Seq<char>,
    dst: Seq<char>,
    time: int,
) -> Seq<(Seq<char>, Seq<(Seq<char>, int)>)> {
    if rows_contains(rows, src) {
        rows.update(
            rows_index_of(rows, src),
            (src, row_after(rows[rows_index_of(rows, src)].1, dst, time)),
        )
    } else {
        rows.push((src, seq![(dst, time)]))
    }
}

/// The matrix's rows after a sequence of contacts is recorded in order.
pub open spec fn rows_after_all(
    rows: Seq<(Seq<char>, Seq<(Seq<char>, int)>)>,
    hits: Seq<(Seq<char>, Seq<char>, int)>,
) -> Seq<(Seq<char>, Seq<(Seq<char>, int)>)>
    decreases hits.len(),
{
    if hits.len() == 0 {
        rows
    } else {
        rows_after(
            rows_after_all(rows, hits.drop_last()),
            hits.last().0,
            hits.last().1,
            hits.last().2,
        )
    }
}

impl TimerSet {
    /// The matrix's rows: one `(source, row)` pair per known source, in
    /// insertion order.
    pub closed spec fn rows(self) -> Seq<(Seq<char>, Seq<(Seq<char>, int)>)> {
        self.hm@.map(|i: int, p: (String, Row)| (p.0@, row_entries(p.1)))
    }

    /// Whether `src` has a row.
    pub open spec fn contains_src(self, src: Seq<char>) -> bool {
        rows_contains(self.rows(), src)
    }

    /// The index of `src` among the rows.
    pub open spec fn index_of(self, src: Seq<char>) -> int {
        rows_index_of(self.rows(), src)
    }

    /// The row recorded for `src`.
    pub open spec fn row_of(self, src: Seq<char>) -> Seq<(Seq<char>, int)> {
        self.rows()[self.index_of(src)].1
    }

    /// Whether the edge `(src, dst)` has ever been reported.
    pub open spec fn contains_edge(self, src: Seq<char>, dst: Seq<char>) -> bool {
        self.contains_src(src) && row_contains(self.row_of(src), dst)
    }

    /// The latest contact timestamp reported for the edge `(src, dst)`.
    pub open spec fn edge_time(self, src: Seq<char>, dst: Seq<char>) -> int {
        self.row_of(src)[row_index_of(self.row_of(src), dst)].1
    }

    /// Each source occurs exactly once, and each row is itself
    /// well-formed.
    pub open spec fn wf(self) -> bool {
        &&& forall|i: int, j: int|
            0 <= i < j < self.rows().len()
                ==> (#[trigger] self.rows()[i]).0 != (#[trigger] self.rows()[j]).0
        &&& forall|i: int| 0 <= i < self.rows().len() ==> row_wf((#[trigger] self.rows()[i]).1)
    }

    /// In a well-formed matrix, `index_of` names the one row of `src`.
    pub proof fn lemma_index_of(self, src: Seq<char>)
        requires
            self.wf(),
            self.contains_src(src),
        ensures
            0 <= self.index_of(src) < self.rows().len(),
            (self.rows()[self.index_of(src)]).0 == src,
            forall|i: int|
                0 <= i < self.rows().len() && (#[trigger] self.rows()[i]).0 == src
                    ==> i == self.index_of(src),
    {
    }

    /// An empty matrix: nothing has been observed yet.
    pub fn new() -> (ts: TimerSet)
        ensures
            ts.wf(),
            ts.rows() == Seq::<(Seq<char>, Seq<(Seq<char>, int)>)>::empty(),
    {
        let ts = TimerSet { hm: Vec::new() };
        proof {
            assert(ts.rows() =~= Seq::<(Seq<char>, Seq<(Seq<char>, int)>)>::empty());
        }
        ts
    }
}

/// How recording one contact changes a row: a known destination's
/// timestamp is overwritten in place, a new destination is appended.
pub open spec fn row_pushed(
    pre: Seq<(Seq<char>, int)>,
    post: Seq<(Seq<char>, int)>,
    dst: Seq<char>,
    time: int,
) -> bool {
    if row_contains(pre, dst) {
        post == pre.update(row_index_of(pre, dst), (dst, time))
    } else {
        post == pre.push((dst, time))
    }
}

/// How recording one contact changes the matrix: the source's row gains
/// or overwrites the destination's timestamp; a new source gains a fresh
/// one-entry row; no other row changes.
pub open spec fn pushed(
    pre: TimerSet,
    post: TimerSet,
    src: Seq<char>,
    dst: Seq<char>,
    time: int,
) -> bool {
    &&& post.wf()
    &&& pre.contains_src(src) ==> {
        &&& post.rows().len() == pre.rows().len()
        &&& forall|i: int|
            0 <= i < pre.rows().len() && i != pre.index_of(src)
                ==> #[trigger] post.rows()[i] == pre.rows()[i]
        &&& (post.rows()[pre.index_of(src)]).0 == src
        &&& row_pushed(
            (pre.rows()[pre.index_of(src)]).1,
            (post.rows()[pre.index_of(src)]).1,
            dst,
            time,
        )
    }
    &&& !pre.contains_src(src) ==> post.rows() == pre.rows().push(
        (src, seq![(dst, time)]),
    )
}

impl TimerSet {
    /// Records that `src` confirmed contact with `dst` at `time`,
    /// overwriting any older timestamp for that edge.
    pub fn push(&mut self, src: String, dst: String, time: i64)
        requires
            old(self).wf(),
        ensures
            pushed(*old(self), *final(self), src@, dst@, time as int),
            final(self).rows() == rows_after(old(self).rows(), src@, dst@, time as int),
    {
        let ghost s = src@;
        let ghost d = dst@;
        let n = self.hm.len();
        let mut k: usize = 0;
        while k < n
            invariant
                old(self).wf(),
                n == self.hm@.len(),
                k <= n,
                self == old(self),
                s == src@,
                d == dst@,
                forall|i: int| 0 <= i < k ==> (#[trigger] self.rows()[i]).0 != s,
            decreases n - k,
        {
            if self.hm[k].0 == src {
                proof {
                    assert((old(self).rows()[k as int]).0 == s);
                    old(self).lemma_index_of(s);
                    assert(old(self).index_of(s) == k as int);
                }
                let ghost pre_row = row_entries(self.hm@[k as int].1);

                // Find the destination's slot in the row, if it has one.
                let row_len = self.hm[k].1.len();
                let mut slot: usize = row_len;
                let mut t: usize = 0;
                while t < row_len
                    invariant
                        n == self.hm@.len(),
                        k < n,
                        row_len == self.hm@[k as int].1@.len(),
                        t <= row_len,
                        self == old(self),
                        d == dst@,
                        pre_row == row_entries(self.hm@[k as int].1),
                        slot == row_len || (slot < t && (pre_row[slot as int]).0 == d),
                        slot == row_len ==> forall|i: int|
                            0 <= i < t ==> (#[trigger] pre_row[i]).0 != d,
                    decreases row_len - t,
                {
                    if slot == row_len && self.hm[k].1[t].0 == dst {
                        slot = t;
                    }
                    t = t + 1;
                }

                // Take the pair out, rewrite the row, and put it back.
                let mut pair: (String, Row) = (String::new(), Vec::new());
                core::mem::swap(&mut self.hm[k], &mut pair);
                if slot < row_len {
                    proof {
                        assert((pre_row[slot as int]).0 == d);
                        assert(row_contains(pre_row, d));
                        assert(row_wf(pre_row));
                        assert forall|i: int|
                            0 <= i < pre_row.len() && (#[trigger] pre_row[i]).0
                                == d implies i == slot as int by {}
                        assert(row_index_of(pre_row, d) == slot as int);
                    }
                    pair.1[slot] = (dst, time);
                    proof {
                        assert(row_entries(pair.1) =~= pre_row.update(
                            slot as int,
                            (d, time as int),
                        ));
                    }
                } else {
                    proof {
                        assert(!row_contains(pre_row, d));
                    }
                    pair.1.push((dst, time));
                    proof {
                        assert(row_entries(pair.1) =~= pre_row.push((d, time as int)));
                    }
                }
                let ghost new_row = row_entries(pair.1);
                self.hm[k] = pair;
                proof {
                    assert(row_pushed(pre_row, new_row, d, time as int));
                    assert(self.rows() =~~= old(self).rows().update(k as int, (s, new_row)));
                    assert(row_wf(new_row)) by {
                        assert forall|a: int, b: int|
                            0 <= a < b < new_row.len() implies (#[trigger] new_row[a]).0 != (
                            #[trigger] new_row[b]).0 by {
                            if b < pre_row.len() {
                                assert((pre_row[a]).0 != (pre_row[b]).0);
                            } else {
                                assert((new_row[a]).0 == (pre_row[a]).0);
                                assert(!row_contains(pre_row, d));
                            }
                        }
                    }
                    assert(self.wf());
                }
                return ;
            }
            k = k + 1;
        }
        proof {
            assert(!self.contains_src(s));
        }
        let ghost pre_rows = self.rows();
        let mut row: Row = Vec::new();
        row.push((dst, time));
        self.hm.push((src, row));
        proof {
            assert(row_entries(row) =~= seq![(d, time as int)]);
            assert(self.rows() =~~= pre_rows.push((s, seq![(d, time as int)])));
            assert forall|i: int| 0 <= i < self.rows().len() implies row_wf(
                (#[trigger] self.rows()[i]).1,
            ) by {
                if i < pre_rows.len() {
                    assert(self.rows()[i] == old(self).rows()[i]);
                }
            }
            assert forall|i: int, j: int| 0 <= i < j < self.rows().len() implies (
            #[trigger] self.rows()[i]).0 != (#[trigger] self.rows()[j]).0 by {
                if j < pre_rows.len() {
                    assert((old(self).rows()[i]).0 != (old(self).rows()[j]).0);
                } else {
                    assert((self.rows()[i]).0 == (old(self).rows()[i]).0);
                    assert(!old(self).contains_src(s));
                }
            }
        }
    }
}

/// Law: a reported edge is never deleted and keeps its timestamp until a
/// newer report for the same edge arrives; reports for other edges leave
/// it untouched.
pub proof fn lemma_edge_persists(
    pre: TimerSet,
    post: TimerSet,
    src: Seq<char>,
    dst: Seq<char>,
    time: int,
    s2: Seq<char>,
    d2: Seq<char>,
)
    requires
        pre.wf(),
        pushed(pre, post, src, dst, time),
        pre.contains_edge(s2, d2),
    ensures
        post.contains_edge(s2, d2),
        s2 != src || d2 != dst ==> post.edge_time(s2, d2) == pre.edge_time(s2, d2),
        s2 == src && d2 == dst ==> post.edge_time(s2, d2) == time,
{
    pre.lemma_index_of(s2);
    let i2 = pre.index_of(s2);
    let pre_row = pre.row_of(s2);
    assert(row_wf(pre_row));
    let j2 = row_index_of(pre_row, d2);
    assert(0 <= j2 < pre_row.len() && (pre_row[j2]).0 == d2);
    if pre.contains_src(src) {
        pre.lemma_index_of(src);
        let k = pre.index_of(src);
        if i2 != k {
            assert(post.rows()[i2] == pre.rows()[i2]);
            assert((post.rows()[i2]).0 == s2);
            post.lemma_index_of(s2);
            assert(post.index_of(s2) == i2);
            assert(post.row_of(s2) == pre_row);
            assert(s2 != src);
        } else {
            assert(s2 == src);
            let post_row = (post.rows()[k]).1;
            assert((post.rows()[k]).0 == s2);
            post.lemma_index_of(s2);
            assert(post.index_of(s2) == k);
            assert(post.row_of(s2) == post_row);
            if row_contains(pre_row, dst) {
                let jd = row_index_of(pre_row, dst);
                assert(0 <= jd < pre_row.len() && (pre_row[jd]).0 == dst);
                assert(post_row == pre_row.update(jd, (dst, time)));
                if d2 == dst {
                    assert(j2 == jd) by {
                        assert(row_wf(pre_row));
                    }
                    assert((post_row[jd]).0 == d2);
                    assert(row_contains(post_row, d2));
                    assert(row_wf(post_row)) by {
                        assert forall|a: int, b: int|
                            0 <= a < b < post_row.len() implies (#[trigger] post_row[a]).0 != (
                            #[trigger] post_row[b]).0 by {
                            assert((pre_row[a]).0 != (pre_row[b]).0);
                        }
                    }
                    assert(row_index_of(post_row, d2) == jd) by {
                        assert((post_row[jd]).0 == d2);
                        let x = row_index_of(post_row, d2);
                        assert(0 <= x < post_row.len() && (post_row[x]).0 == d2);
                        if x != jd {
                            assert((pre_row[x]).0 == d2);
                            assert(row_wf(pre_row));
                        }
                    }
                    assert(post.edge_time(s2, d2) == time);
                } else {
                    assert(j2 != jd);
                    assert((post_row[j2]).0 == d2 && (post_row[j2]).1 == (pre_row[j2]).1);
                    assert(row_contains(post_row, d2));
                    assert(row_index_of(post_row, d2) == j2) by {
                        let x = row_index_of(post_row, d2);
                        assert(0 <= x < post_row.len() && (post_row[x]).0 == d2);
                        if x != j2 {
                            if x == jd {
                                assert((post_row[x]).0 == dst);
                            } else {
                                assert((pre_row[x]).0 == d2);
                                assert(row_wf(pre_row));
                            }
                        }
                    }
                    assert(post.edge_time(s2, d2) == pre.edge_time(s2, d2));
                }
            } else {
                assert(post_row == pre_row.push((dst, time)));
                assert(d2 != dst) by {
                    assert((pre_row[j2]).0 == d2);
                }
                assert((post_row[j2]).0 == d2);
                assert(row_contains(post_row, d2));
                assert(row_index_of(post_row, d2) == j2) by {
                    let x = row_index_of(post_row, d2);
                    assert(0 <= x < post_row.len() && (post_row[x]).0 == d2);
                    if x != j2 {
                        if x == post_row.len() - 1 {
                            assert((post_row[x]).0 == dst);
                        } else {
                            assert((pre_row[x]).0 == d2);
                            assert(row_wf(pre_row));
                        }
                    }
                }
                assert(post.edge_time(s2, d2) == pre.edge_time(s2, d2));
            }
        }
    } else {
        assert(s2 != src) by {
            if s2 == src {
                assert(pre.contains_src(src));
            }
        }
        assert(post.rows() == pre.rows().push((src, seq![(dst, time)])));
        assert(post.rows()[i2] == pre.rows()[i2]);
        assert((post.rows()[i2]).0 == s2);
        post.lemma_index_of(s2);
        assert(post.index_of(s2) == i2) by {
            assert(post.wf());
            let x = post.index_of(s2);
            if x != i2 {
                if x == post.rows().len() - 1 {
                    assert((post.rows()[x]).0 == src);
                }
            }
        }
        assert(post.row_of(s2) == pre_row);
    }
}

/// The staleness age reported for an edge last confirmed at `t`, as seen
/// at `now`: their difference, clamped into the signed 64-bit range.
pub open spec fn clamped_age(now: int, t: int) -> int {
    if now - t > i64::MAX as int {
        i64::MAX as int
    } else if now - t < i64::MIN as int {
        i64::MIN as int
    } else {
        now - t
    }
}

/// The report entry for one edge: its staleness age and the destination
/// URL.
pub open spec fn edge_item_rep(now: int, p: (Seq<char>, int)) -> JsonRep {
    JsonRep::Obj(
        seq![
            ("reachable"@, JsonRep::Int(clamped_age(now, p.1))),
            ("url"@, JsonRep::Str(p.0)),
        ],
    )
}

/// The report document for one source's row, as seen at `now`.
pub open spec fn row_report_rep(now: int, row: Seq<(Seq<char>, int)>) -> JsonRep {
    JsonRep::Obj(
        seq![
            (
                "status"@,
                JsonRep::Obj(
                    seq![
                        (
                            "targets"@,
                            JsonRep::Arr(
                                row.map(|i: int, p: (Seq<char>, int)| edge_item_rep(now, p)),
                            ),
                        ),
                    ],
                ),
            ),
        ],
    )
}

impl TimerSet {
    /// The report served by the responses endpoint, as seen at `now`: one
    /// entry per source, keyed by the source's name, whose body lists
    /// every destination the source ever confirmed, each with its current
    /// staleness age.  The matrix itself is left untouched.
    pub fn resources(&self, now: i64) -> (rs: Vec<(Resource, Option<Response>)>)
        ensures
            rs@.len() == self.rows().len(),
            forall|i: int|
                0 <= i < rs@.len()
                    ==> resource_key((#[trigger] rs@[i]).0) == (
                        (self.rows()[i]).0,
                        (self.rows()[i]).0,
                    ) && obs_rep(rs@[i].1) == Option::Some(
                        (
                            (self.rows()[i]).0,
                            200int,
                            row_report_rep(now as int, (self.rows()[i]).1),
                        ),
                    ),
    {
        let mut rs: Vec<(Resource, Option<Response>)> = Vec::new();
        let n = self.hm.len();
        let mut k: usize = 0;
        while k < n
            invariant
                n == self.hm@.len(),
                k <= n,
                rs@.len() == k,
                forall|i: int|
                    0 <= i < k
                        ==> resource_key((#[trigger] rs@[i]).0) == (
                            (self.rows()[i]).0,
                            (self.rows()[i]).0,
                        ) && obs_rep(rs@[i].1) == Option::Some(
                            (
                                (self.rows()[i]).0,
                                200int,
                                row_report_rep(now as int, (self.rows()[i]).1),
                            ),
                        ),
            decreases n - k,
        {
            let src_name = &self.hm[k].0;
            let row = &self.hm[k].1;
            let ghost row_ent = row_entries(*row);
            let mut items: Vec<Json> = Vec::new();
            let m = row.len();
            let mut t: usize = 0;
            while t < m
                invariant
                    m == row@.len(),
                    t <= m,
                    row_ent == row_entries(*row),
                    items@.len() == t,
                    forall|i: int|
                        0 <= i < t
                            ==> (#[trigger] items@[i])@ == edge_item_rep(now as int, row_ent[i]),
                decreases m - t,
            {
                let dst_name = row[t].0.clone();
                let heard_at = row[t].1;
                let diff: i128 = now as i128 - heard_at as i128;
                let age: i64 = if diff > i64::MAX as i128 {
                    i64::MAX
                } else if diff < i64::MIN as i128 {
                    i64::MIN
                } else {
                    diff as i64
                };
                proof {
                    assert(age as int == clamped_age(now as int, heard_at as int));
                }
                let mut item_pairs: Vec<(String, Json)> = Vec::new();
                item_pairs.push(("reachable".to_owned(), Json::Int(age)));
                item_pairs.push(("url".to_owned(), Json::Str(dst_name)));
                let item = Json::Obj(item_pairs);
                proof {
                    Json::lemma_rep_pairs(item_pairs@);
                    assert(Json::rep_pairs(item_pairs@) =~= seq![
                        ("reachable"@, JsonRep::Int(age as int)),
                        ("url"@, JsonRep::Str((row_ent[t as int]).0)),
                    ]);
                    assert(item@ == edge_item_rep(now as int, row_ent[t as int]));
                }
                items.push(item);
                t = t + 1;
            }
            let targets_json = Json::Arr(items);
            let mut status_pairs: Vec<(String, Json)> = Vec::new();
            status_pairs.push(("targets".to_owned(), targets_json));
            let status_json = Json::Obj(status_pairs);
            let mut outer_pairs: Vec<(String, Json)> = Vec::new();
            outer_pairs.push(("status".to_owned(), status_json));
            let report = Json::Obj(outer_pairs);
            proof {
                Json::lemma_rep_seq(items@);
                assert(Json::rep_seq(items@) =~= row_ent.map(
                    |i: int, p: (Seq<char>, int)| edge_item_rep(now as int, p),
                ));
                Json::lemma_rep_pairs(status_pairs@);
                assert(Json::rep_pairs(status_pairs@) =~= seq![
                    ("targets"@, JsonRep::Arr(Json::rep_seq(items@))),
                ]);
                Json::lemma_rep_pairs(outer_pairs@);
                assert(Json::rep_pairs(outer_pairs@) =~= seq![
                    (
                        "status"@,
                        JsonRep::Obj(
                            seq![("targets"@, JsonRep::Arr(Json::rep_seq(items@)))],
                        ),
                    ),
                ]);
                assert(report@ == row_report_rep(now as int, row_ent));
            }
            let resource = Resource { id: src_name.clone(), url: src_name.clone() };
            let response = Response { url: src_name.clone(), status_code: 200, json: report };
            rs.push((resource, Option::Some(response)));
            k = k + 1;
        }
        rs
    }
}

/// Law: a report taken at `now` still shows every recorded edge; the one
/// last confirmed at time `t` is shown under its source's entry with
/// staleness age `now - t` (clamped to the representable range), so any
/// consumer cutoff marks it stale exactly when `now - t` reaches the
/// cutoff, and the edge is never dropped from the report.  `rs` is any
/// report of `ts`, described exactly as `resources` describes its result.
pub proof fn lemma_stale_edge_reported(
    ts: TimerSet,
    rs: Seq<(Resource, Option<Response>)>,
    src: Seq<char>,
    dst: Seq<char>,
    now: int,
)
    requires
        ts.wf(),
        ts.contains_edge(src, dst),
        rs.len() == ts.rows().len(),
        forall|i: int|
            0 <= i < rs.len()
                ==> resource_key((#[trigger] rs[i]).0) == ((ts.rows()[i]).0, (ts.rows()[i]).0)
                    && obs_rep(rs[i].1) == Option::Some(
                    ((ts.rows()[i]).0, 200int, row_report_rep(now, (ts.rows()[i]).1)),
                ),
    ensures
        exists|i: int|
            0 <= i < rs.len() && resource_key((#[trigger] rs[i]).0) == (src, src) && obs_rep(
                rs[i].1,
            ) == Option::Some((src, 200int, row_report_rep(now, ts.row_of(src)))),
        row_report_rep(now, ts.row_of(src))
            == JsonRep::Obj(
            seq![
                (
                    "status"@,
                    JsonRep::Obj(
                        seq![
                            (
                                "targets"@,
                                JsonRep::Arr(
                                    ts.row_of(src).map(
                                        |i: int, p: (Seq<char>, int)| edge_item_rep(now, p),
                                    ),
                                ),
                            ),
                        ],
                    ),
                ),
            ],
        ),
        exists|j: int|
            0 <= j < ts.row_of(src).len() && (#[trigger] ts.row_of(src)[j]) == (
                dst,
                ts.edge_time(src, dst),
            ),
        edge_item_rep(now, (dst, ts.edge_time(src, dst))) == JsonRep::Obj(
            seq![
                ("reachable"@, JsonRep::Int(clamped_age(now, ts.edge_time(src, dst)))),
                ("url"@, JsonRep::Str(dst)),
            ],
        ),
{
    ts.lemma_index_of(src);
    let i = ts.index_of(src);
    assert(resource_key(rs[i].0) == (src, src));
    let row = ts.row_of(src);
    let j = row_index_of(row, dst);
    assert(0 <= j < row.len() && (row[j]).0 == dst);
    assert(row[j] == (dst, ts.edge_time(src, dst)));
    let mapped = row.map(|i2: int, p: (Seq<char>, int)| edge_item_rep(now, p));
    assert(mapped[j] == edge_item_rep(now, (dst, ts.edge_time(src, dst))));
}


/// Law: recording a contact creates or refreshes exactly that edge; every
/// edge of the new matrix is either the recorded one, now carrying the
/// recorded time, or one the old matrix already had, unchanged.
pub proof fn lemma_pushed_edge_origin(
    pre: TimerSet,
    post: TimerSet,
    src: Seq<char>,
    dst: Seq<char>,
    time: int,
    s2: Seq<char>,
    d2: Seq<char>,
)
    requires
        pre.wf(),
        pushed(pre, post, src, dst, time),
        post.contains_edge(s2, d2),
    ensures
        (s2 == src && d2 == dst && post.edge_time(s2, d2) == time) || (pre.contains_edge(s2, d2)
            && post.edge_time(s2, d2) == pre.edge_time(s2, d2)),
{
    post.lemma_index_of(s2);
    let i2 = post.index_of(s2);
    let post_row = post.row_of(s2);
    assert(row_wf(post_row));
    let j2 = row_index_of(post_row, d2);
    assert(0 <= j2 < post_row.len() && (post_row[j2]).0 == d2);
    if pre.contains_src(src) {
        pre.lemma_index_of(src);
        let k = pre.index_of(src);
        if i2 != k {
            assert(post.rows()[i2] == pre.rows()[i2]);
            assert((pre.rows()[i2]).0 == s2);
            pre.lemma_index_of(s2);
            assert(pre.index_of(s2) == i2);
            assert(pre.row_of(s2) == post_row);
            assert(pre.contains_edge(s2, d2));
        } else {
            assert((pre.rows()[k]).0 == src);
            assert(s2 == src);
            let pre_row = (pre.rows()[k]).1;
            assert(pre.index_of(s2) == k) by {
                pre.lemma_index_of(src);
            }
            assert(pre.row_of(s2) == pre_row);
            assert(row_wf(pre_row));
            if row_contains(pre_row, dst) {
                let jd = row_index_of(pre_row, dst);
                assert(0 <= jd < pre_row.len() && (pre_row[jd]).0 == dst);
                assert(post_row == pre_row.update(jd, (dst, time)));
                if j2 == jd {
                    assert(d2 == dst);
                    assert(post.edge_time(s2, d2) == time);
                } else {
                    assert((pre_row[j2]).0 == d2);
                    assert(row_contains(pre_row, d2));
                    assert(row_index_of(pre_row, d2) == j2) by {
                        let x = row_index_of(pre_row, d2);
                        assert(0 <= x < pre_row.len() && (pre_row[x]).0 == d2);
                        if x != j2 {
                            if x == jd {
                                assert((pre_row[x]).0 == dst);
                                assert((post_row[j2]).0 == (pre_row[j2]).0);
                            } else {
                                assert((post_row[x]).0 == d2);
                                assert(row_wf(post_row));
                            }
                        }
                    }
                    assert(pre.contains_edge(s2, d2));
                    assert(post.edge_time(s2, d2) == pre.edge_time(s2, d2));
                }
            } else {
                assert(post_row == pre_row.push((dst, time)));
                if j2 == post_row.len() - 1 {
                    assert(d2 == dst);
                    assert(post.edge_time(s2, d2) == time);
                } else {
                    assert((pre_row[j2]).0 == d2);
                    assert(row_contains(pre_row, d2));
                    assert(row_index_of(pre_row, d2) == j2) by {
                        let x = row_index_of(pre_row, d2);
                        assert(0 <= x < pre_row.len() && (pre_row[x]).0 == d2);
                        if x != j2 {
                            assert((post_row[x]).0 == d2);
                            assert(row_wf(post_row));
                        }
                    }
                    assert(pre.contains_edge(s2, d2));
                    assert(post.edge_time(s2, d2) == pre.edge_time(s2, d2));
                }
            }
        }
    } else {
        assert(post.rows() == pre.rows().push((src, seq![(dst, time)])));
        if i2 == post.rows().len() - 1 {
            assert(s2 == src);
            assert(post_row == seq![(dst, time)]);
            assert(j2 == 0);
            assert(d2 == dst);
            assert(post.edge_time(s2, d2) == time);
        } else {
            assert(post.rows()[i2] == pre.rows()[i2]);
            assert((pre.rows()[i2]).0 == s2);
            pre.lemma_index_of(s2);
            assert(pre.index_of(s2) == i2);
            assert(pre.row_of(s2) == post_row);
            assert(pre.contains_edge(s2, d2));
        }
    }
}

/// The five node names of the synthetic example report, in order.
pub open spec fn example_names() -> Seq<Seq<char>> {
    seq!["A"@, "B"@, "C"@, "D"@, "E"@]
}

/// The destination listed at slot `j` of source `i`'s example row: the
/// four names other than the source's own, in name order.
pub open spec fn example_dst(i: int, j: int) -> Seq<char> {
    if j < i {
        example_names()[j]
    } else {
        example_names()[j + 1]
    }
}

/// How many edges source `i`'s row holds once the inner loop has looked
/// at the first `j` candidate destinations (every index but `i` itself).
spec fn pushes_done(i: int, j: int) -> int {
    if j <= i {
        j
    } else {
        j - 1
    }
}

/// The five example names differ pairwise.
proof fn lemma_example_names_distinct()
    ensures
        forall|a: int, b: int|
            0 <= a < 5 && 0 <= b < 5 && a != b ==> #[trigger] example_names()[a]
                != #[trigger] example_names()[b],
{
    reveal_strlit("A");
    reveal_strlit("B");
    reveal_strlit("C");
    reveal_strlit("D");
    reveal_strlit("E");
    assert("A"@[0] == 'A' && "B"@[0] == 'B' && "C"@[0] == 'C' && "D"@[0] == 'D' && "E"@[0]
        == 'E');
    assert forall|a: int, b: int|
        0 <= a < 5 && 0 <= b < 5 && a != b implies #[trigger] example_names()[a]
        != #[trigger] example_names()[b] by {
        assert(example_names()[a][0] != example_names()[b][0]);
    }
}

/// The five node names of the synthetic example report.
pub fn example_node_names() -> (names: Vec<String>)
    ensures
        names@.len() == 5,
        forall|k: int| 0 <= k < 5 ==> (#[trigger] names@[k])@ == example_names()[k],
{
    let mut names: Vec<String> = Vec::new();
    names.push("A".to_owned());
    names.push("B".to_owned());
    names.push("C".to_owned());
    names.push("D".to_owned());
    names.push("E".to_owned());
    names
}

/// Builds the synthetic example matrix: one row per node in name order,
/// each listing the other four nodes in name order, every edge reported
/// within the last five seconds of `now`, so the example graph always
/// looks freshly and fully connected.
pub fn example_timer_set(now: i64) -> (ts: TimerSet)
    requires
        i64::MIN + 4 <= now,
    ensures
        ts.wf(),
        ts.rows().len() == 5,
        forall|i: int|
            0 <= i < 5
                ==> (#[trigger] ts.rows()[i]).0 == example_names()[i]
                    && (ts.rows()[i]).1.len() == 4,
        forall|i: int, j: int|
            0 <= i < 5 && 0 <= j < 4
                ==> ((#[trigger] (ts.rows()[i]).1[j])).0 == example_dst(i, j) && now - 5 < ((
                ts.rows()[i]).1[j]).1 <= now,
        forall|s: Seq<char>, d: Seq<char>|
            #[trigger] ts.contains_edge(s, d) ==> now - 5 < ts.edge_time(s, d) <= now,
{
    proof {
        lemma_example_names_distinct();
    }
    let names = example_node_names();
    let mut ts = TimerSet::new();
    let mut i: usize = 0;
    while i < 5
        invariant
            names@.len() == 5,
            forall|k: int| 0 <= k < 5 ==> (#[trigger] names@[k])@ == example_names()[k],
            forall|a: int, b: int|
                0 <= a < 5 && 0 <= b < 5 && a != b ==> #[trigger] example_names()[a]
                    != #[trigger] example_names()[b],
            i <= 5,
            i64::MIN + 4 <= now,
            ts.wf(),
            ts.rows().len() == i,
            forall|i2: int|
                0 <= i2 < i
                    ==> (#[trigger] ts.rows()[i2]).0 == example_names()[i2]
                        && (ts.rows()[i2]).1.len() == 4,
            forall|i2: int, j2: int|
                0 <= i2 < i && 0 <= j2 < 4
                    ==> ((#[trigger] (ts.rows()[i2]).1[j2])).0 == example_dst(i2, j2) && now - 5
                    < ((ts.rows()[i2]).1[j2]).1 <= now,
        decreases 5 - i,
    {
        let mut j: usize = 0;
        while j < 5
            invariant
                names@.len() == 5,
                forall|k: int| 0 <= k < 5 ==> (#[trigger] names@[k])@ == example_names()[k],
                forall|a: int, b: int|
                    0 <= a < 5 && 0 <= b < 5 && a != b ==> #[trigger] example_names()[a]
                        != #[trigger] example_names()[b],
                i < 5,
                j <= 5,
                i64::MIN + 4 <= now,
                ts.wf(),
                ts.rows().len() == i + (if pushes_done(i as int, j as int) > 0 {
                    1int
                } else {
                    0int
                }),
                forall|i2: int|
                    0 <= i2 < i
                        ==> (#[trigger] ts.rows()[i2]).0 == example_names()[i2]
                            && (ts.rows()[i2]).1.len() == 4,
                forall|i2: int, j2: int|
                    0 <= i2 < i && 0 <= j2 < 4
                        ==> ((#[trigger] (ts.rows()[i2]).1[j2])).0 == example_dst(i2, j2) && now
                        - 5 < ((ts.rows()[i2]).1[j2]).1 <= now,
                pushes_done(i as int, j as int) > 0 ==> (ts.rows()[i as int]).0 == example_names()[
                    i as int
                ] && (ts.rows()[i as int]).1.len() == pushes_done(i as int, j as int),
                forall|j2: int|
                    0 <= j2 < pushes_done(i as int, j as int)
                        ==> ((#[trigger] (ts.rows()[i as int]).1[j2])).0 == example_dst(
                        i as int,
                        j2,
                    ) && now - 5 < ((ts.rows()[i as int]).1[j2]).1 <= now,
            decreases 5 - j,
        {
            if j != i {
                let offset = crate::sampling::sample_below(5);
                let t: i64 = now - offset as i64;
                let ghost pre = ts;
                let ghost c = pushes_done(i as int, j as int);
                let src = names[i].clone();
                let dst = names[j].clone();
                let ghost sv = src@;
                let ghost dv = dst@;
                ts.push(src, dst, t);
                proof {
                    assert(sv == example_names()[i as int]);
                    assert(dv == example_names()[j as int]);
                    assert(example_dst(i as int, c) == dv);
                    if c == 0 {
                        assert(!pre.contains_src(sv)) by {
                            if pre.contains_src(sv) {
                                let x = choose|x: int|
                                    0 <= x < pre.rows().len() && (#[trigger] pre.rows()[x]).0
                                        == sv;
                                assert((pre.rows()[x]).0 == example_names()[x]);
                            }
                        }
                        assert(ts.rows() == pre.rows().push((sv, seq![(dv, t as int)])));
                        assert((ts.rows()[i as int]).1 == seq![(dv, t as int)]);
                        assert(((ts.rows()[i as int]).1[0]).0 == example_dst(i as int, 0));
                    } else {
                        assert(pre.contains_src(sv)) by {
                            assert((pre.rows()[i as int]).0 == sv);
                        }
                        pre.lemma_index_of(sv);
                        assert(pre.index_of(sv) == i as int);
                        let pre_row = (pre.rows()[i as int]).1;
                        assert(!row_contains(pre_row, dv)) by {
                            if row_contains(pre_row, dv) {
                                let x = choose|x: int|
                                    0 <= x < pre_row.len() && (#[trigger] pre_row[x]).0 == dv;
                                assert((pre_row[x]).0 == example_dst(i as int, x));
                                let m: int = if x < i as int {
                                    x
                                } else {
                                    x + 1
                                };
                                assert(example_dst(i as int, x) == example_names()[m]);
                                assert(0 <= m < 5);
                                assert(m != j as int);
                                assert(example_names()[m] != example_names()[j as int]);
                            }
                        }
                        assert(row_pushed(pre_row, (ts.rows()[i as int]).1, dv, t as int));
                        assert((ts.rows()[i as int]).1 == pre_row.push((dv, t as int)));
                        assert forall|j2: int|
                            0 <= j2 < c + 1 implies ((#[trigger] (ts.rows()[i as int]).1[j2])).0
                            == example_dst(i as int, j2) && now - 5 < ((
                        ts.rows()[i as int]).1[j2]).1 <= now by {
                            if j2 < c {
                                assert((pre_row[j2]).0 == example_dst(i as int, j2));
                            }
                        }
                    }
                }
            }
            j = j + 1;
        }
        i = i + 1;
    }
    proof {
        assert forall|s: Seq<char>, d: Seq<char>| #[trigger] ts.contains_edge(s, d) implies now
            - 5 < ts.edge_time(s, d) <= now by {
            ts.lemma_index_of(s);
            let i2 = ts.index_of(s);
            let row = ts.row_of(s);
            let j2 = row_index_of(row, d);
            assert(0 <= j2 < row.len() && (row[j2]).0 == d);
            assert(now - 5 < (row[j2]).1 <= now);
        }
    }
    ts
}

/// Law: when two contacts for the same edge are recorded in sequence, the
/// matrix ends exactly as if only the second had been recorded; the first
/// timestamp is fully overwritten.
pub proof fn lemma_push_last_write_wins(
    a: TimerSet,
    b: TimerSet,
    c: TimerSet,
    src: Seq<char>,
    dst: Seq<char>,
    first: int,
    second: int,
)
    requires
        a.wf(),
        pushed(a, b, src, dst, first),
        pushed(b, c, src, dst, second),
    ensures
        pushed(a, c, src, dst, second),
{
    if a.contains_src(src) {
        a.lemma_index_of(src);
        let k = a.index_of(src);
        assert((b.rows()[k]).0 == src);
        assert(b.contains_src(src));
        b.lemma_index_of(src);
        assert(b.index_of(src) == k);
        let pre_row = (a.rows()[k]).1;
        let b_row = (b.rows()[k]).1;
        let c_row = (c.rows()[k]).1;
        assert(row_wf(b_row));
        assert forall|i: int| 0 <= i < a.rows().len() && i != k implies #[trigger] c.rows()[i]
            == a.rows()[i] by {
            assert(b.rows()[i] == a.rows()[i]);
            assert(c.rows()[i] == b.rows()[i]);
        }
        if row_contains(pre_row, dst) {
            let j = row_index_of(pre_row, dst);
            assert(0 <= j < pre_row.len() && (pre_row[j]).0 == dst);
            assert(b_row == pre_row.update(j, (dst, first)));
            assert((b_row[j]).0 == dst);
            assert(row_contains(b_row, dst));
            assert(row_index_of(b_row, dst) == j) by {
                let x = row_index_of(b_row, dst);
                assert(0 <= x < b_row.len() && (b_row[x]).0 == dst);
                if x != j {
                    assert((b_row[x]).0 == (b_row[j]).0);
                }
            }
            assert(c_row == b_row.update(j, (dst, second)));
            assert(c_row =~= pre_row.update(j, (dst, second)));
        } else {
            let l = pre_row.len() as int;
            assert(b_row == pre_row.push((dst, first)));
            assert((b_row[l]).0 == dst);
            assert(row_contains(b_row, dst));
            assert(row_index_of(b_row, dst) == l) by {
                let x = row_index_of(b_row, dst);
                assert(0 <= x < b_row.len() && (b_row[x]).0 == dst);
                if x != l {
                    assert((pre_row[x]).0 == dst);
                    assert(row_contains(pre_row, dst));
                }
            }
            assert(c_row == b_row.update(l, (dst, second)));
            assert(c_row =~= pre_row.push((dst, second)));
        }
    } else {
        let l = a.rows().len() as int;
        assert(b.rows() == a.rows().push((src, seq![(dst, first)])));
        assert((b.rows()[l]).0 == src);
        assert(b.contains_src(src));
        b.lemma_index_of(src);
        assert(b.index_of(src) == l);
        let b_row = (b.rows()[l]).1;
        assert(b_row == seq![(dst, first)]);
        assert((b_row[0]).0 == dst);
        assert(row_contains(b_row, dst));
        assert(row_index_of(b_row, dst) == 0) by {
            let x = row_index_of(b_row, dst);
            assert(0 <= x < b_row.len() && (b_row[x]).0 == dst);
        }
        let c_row = (c.rows()[l]).1;
        assert(c_row == b_row.update(0, (dst, second)));
        assert(c_row =~= seq![(dst, second)]);
        assert(c.rows() =~~= a.rows().push((src, seq![(dst, second)])));
    }
}


} // verus!
