//! The JSON documents the service exchanges: a value model, its
//! mathematical representation, and an encoder whose output is pinned
//! character by character.
//!
//! Numbers are modelled as signed 64-bit integers, which covers every
//! number the service itself produces or reads (status codes, timestamps,
//! staleness ages).

use vstd::prelude::*;
use crate::dec::{dec_int_chars, push_dec_i64};
use crate::text::push_char;

verus! {

/// A JSON value.
#[derive(Debug)]
pub enum Json {
    Null,
    Bool(bool),
    Int(i64),
    Str(String),
    Arr(Vec<Json>),
    Obj(Vec<(String, Json)>),
}

/// The mathematical shape of a JSON value: the same tree over unbounded
/// integers and character sequences.
pub enum JsonRep {
    Null,
    Bool(bool),
    Int(int),
    Str(Seq<char>),
    Arr(Seq<JsonRep>),
    Obj(Seq<(Seq<char>, JsonRep)>),
}

impl Json {
    /// The representation of this value.
    pub open spec fn rep(self) -> JsonRep
        decreases self,
    {
        match self {
            Json::Null => JsonRep::Null,
            Json::Bool(b) => JsonRep::Bool(b),
            Json::Int(n) => JsonRep::Int(n as int),
            Json::Str(s) => JsonRep::Str(s@),
            Json::Arr(items) => JsonRep::Arr(Self::rep_seq(items@)),
            Json::Obj(pairs) => JsonRep::Obj(Self::rep_pairs(pairs@)),
        }
    }

    /// The representations of a sequence of values.
    pub open spec fn rep_seq(items: Seq<Json>) -> Seq<JsonRep>
        decreases items,
    {
        if items.len() == 0 {
            Seq::empty()
        } else {
            Self::rep_seq(items.drop_last()).push(items.last().rep())
        }
    }

    /// The representations of a sequence of members.
    pub open spec fn rep_pairs(pairs: Seq<(String, Json)>) -> Seq<(Seq<char>, JsonRep)>
        decreases pairs,
    {
        if pairs.len() == 0 {
            Seq::empty()
        } else {
            Self::rep_pairs(pairs.drop_last()).push(
                (pairs.last().0@, pairs.last().1.rep()),
            )
        }
    }

    /// `rep_seq` looks up pointwise.
    pub proof fn lemma_rep_seq(items: Seq<Json>)
        ensures
            Self::rep_seq(items).len() == items.len(),
            forall|i: int|
                0 <= i < items.len() ==> #[trigger] Self::rep_seq(items)[i] == items[i].rep(),
        decreases items,
    {
        if items.len() > 0 {
            Self::lemma_rep_seq(items.drop_last());
        }
    }

    /// `rep_pairs` looks up pointwise.
    pub proof fn lemma_rep_pairs(pairs: Seq<(String, Json)>)
        ensures
            Self::rep_pairs(pairs).len() == pairs.len(),
            forall|i: int|
                0 <= i < pairs.len()
                    ==> #[trigger] Self::rep_pairs(pairs)[i] == (pairs[i].0@, pairs[i].1.rep()),
        decreases pairs,
    {
        if pairs.len() > 0 {
            Self::lemma_rep_pairs(pairs.drop_last());
        }
    }
}

impl View for Json {
    type V = JsonRep;

    open spec fn view(&self) -> JsonRep {
        self.rep()
    }
}

impl Clone for Json {
    #[verifier::loop_isolation(false)]
    fn clone(&self) -> (r: Self)
        ensures
            r@ == self@,
        decreases *self,
    {
        match self {
            Json::Null => Json::Null,
            Json::Bool(b) => Json::Bool(*b),
            Json::Int(n) => Json::Int(*n),
            Json::Str(s) => Json::Str(s.clone()),
            Json::Arr(items) => {
                let mut out: Vec<Json> = Vec::new();
                let n = items.len();
                let mut k: usize = 0;
                while k < n
                    invariant
                        k <= n,
                        out@.len() == k,
                        forall|i: int| 0 <= i < k ==> (#[trigger] out@[i])@ == (items@[i])@,
                    decreases n - k,
                {
                    proof {
                        assert(decreases_to!(*self => *items));
                        assert(decreases_to!(*items => items@));
                        assert(decreases_to!(items@ => items@[k as int]));
                    }
                    out.push(items[k].clone());
                    k = k + 1;
                }
                proof {
                    Json::lemma_rep_seq(out@);
                    Json::lemma_rep_seq(items@);
                    assert(Json::rep_seq(out@) =~= Json::rep_seq(items@));
                    assert(Json::Arr(out)@ == JsonRep::Arr(Json::rep_seq(out@)));
                    assert((*self)@ == JsonRep::Arr(Json::rep_seq(items@)));
                }
                Json::Arr(out)
            },
            Json::Obj(pairs) => {
                let mut out: Vec<(String, Json)> = Vec::new();
                let n = pairs.len();
                let mut k: usize = 0;
                while k < n
                    invariant
                        k <= n,
                        out@.len() == k,
                        forall|i: int|
                            0 <= i < k
                                ==> (#[trigger] out@[i]).0@ == (pairs@[i]).0@ && (out@[i]).1@
                                == (pairs@[i]).1@,
                    decreases n - k,
                {
                    proof {
                        assert(decreases_to!(*self => *pairs));
                        assert(decreases_to!(*pairs => pairs@));
                        assert(decreases_to!(pairs@ => pairs@[k as int]));
                        assert(decreases_to!(pairs@[k as int] => pairs@[k as int].1));
                    }
                    let key = pairs[k].0.clone();
                    let val = pairs[k].1.clone();
                    out.push((key, val));
                    k = k + 1;
                }
                proof {
                    Json::lemma_rep_pairs(out@);
                    Json::lemma_rep_pairs(pairs@);
                    assert(Json::rep_pairs(out@) =~= Json::rep_pairs(pairs@));
                    assert(Json::Obj(out)@ == JsonRep::Obj(Json::rep_pairs(out@)));
                    assert((*self)@ == JsonRep::Obj(Json::rep_pairs(pairs@)));
                }
                Json::Obj(out)
            },
        }
    }
}

/// How one character appears inside a JSON string literal: the quote, the
/// backslash and the control characters the service can produce are
/// escaped, every other character stands for itself.
pub open spec fn escaped_char(c: char) -> Seq<char> {
    if c == '"' {
        seq!['\\', '"']
    } else if c == '\\' {
        seq!['\\', '\\']
    } else if c == '\n' {
        seq!['\\', 'n']
    } else if c == '\r' {
        seq!['\\', 'r']
    } else if c == '\t' {
        seq!['\\', 't']
    } else if c == '\u{8}' {
        seq!['\\', 'b']
    } else if c == '\u{c}' {
        seq!['\\', 'f']
    } else {
        seq![c]
    }
}

/// The body of a JSON string literal for `s`.
pub open spec fn escaped_chars(s: Seq<char>) -> Seq<char>
    decreases s.len(),
{
    if s.len() == 0 {
        Seq::empty()
    } else {
        escaped_chars(s.drop_last()) + escaped_char(s.last())
    }
}

/// The JSON string literal for `s`, quotes included.
pub open spec fn string_lit_chars(s: Seq<char>) -> Seq<char> {
    seq!['"'] + escaped_chars(s) + seq!['"']
}

/// The characters of the canonical encoding of `v`: no whitespace,
/// members and elements in their given order.
pub open spec fn json_chars(v: JsonRep) -> Seq<char>
    decreases v,
{
    match v {
        JsonRep::Null => seq!['n', 'u', 'l', 'l'],
        JsonRep::Bool(b) => if b {
            seq!['t', 'r', 'u', 'e']
        } else {
            seq!['f', 'a', 'l', 's', 'e']
        },
        JsonRep::Int(n) => dec_int_chars(n),
        JsonRep::Str(s) => string_lit_chars(s),
        JsonRep::Arr(items) => seq!['['] + list_chars(items) + seq![']'],
        JsonRep::Obj(pairs) => seq!['{'] + members_chars(pairs) + seq!['}'],
    }
}

/// The comma-separated encodings of a sequence of values.
pub open spec fn list_chars(items: Seq<JsonRep>) -> Seq<char>
    decreases items,
{
    if items.len() == 0 {
        Seq::empty()
    } else if items.len() == 1 {
        json_chars(items.last())
    } else {
        list_chars(items.drop_last()) + seq![','] + json_chars(items.last())
    }
}

/// The comma-separated encodings of an object's members.
pub open spec fn members_chars(pairs: Seq<(Seq<char>, JsonRep)>) -> Seq<char>
    decreases pairs,
{
    if pairs.len() == 0 {
        Seq::empty()
    } else if pairs.len() == 1 {
        member_chars(pairs.last())
    } else {
        members_chars(pairs.drop_last()) + seq![','] + member_chars(pairs.last())
    }
}

/// One `"key":value` member.
pub open spec fn member_chars(pair: (Seq<char>, JsonRep)) -> Seq<char>
    decreases pair,
{
    string_lit_chars(pair.0) + seq![':'] + json_chars(pair.1)
}

/// Appends the escaped form of `c` to `out`.
fn push_escaped_char(out: &mut String, c: char)
    ensures
        final(out)@ == old(out)@ + escaped_char(c),
{
    if c == '"' {
        push_char(out, '\\');
        push_char(out, '"');
    } else if c == '\\' {
        push_char(out, '\\');
        push_char(out, '\\');
    } else if c == '\n' {
        push_char(out, '\\');
        push_char(out, 'n');
    } else if c == '\r' {
        push_char(out, '\\');
        push_char(out, 'r');
    } else if c == '\t' {
        push_char(out, '\\');
        push_char(out, 't');
    } else if c == '\u{8}' {
        push_char(out, '\\');
        push_char(out, 'b');
    } else if c == '\u{c}' {
        push_char(out, '\\');
        push_char(out, 'f');
    } else {
        push_char(out, c);
    }
    proof {
        assert(final(out)@ =~= old(out)@ + escaped_char(c));
    }
}

/// Appends the JSON string literal for `s` to `out`.
pub fn push_string_lit(out: &mut String, s: &str)
    ensures
        final(out)@ == old(out)@ + string_lit_chars(s@),
{
    push_char(out, '"');
    let chars = crate::text::str_to_chars(s);
    let n = chars.len();
    let mut k: usize = 0;
    while k < n
        invariant
            n == chars@.len(),
            chars@ == s@,
            k <= n,
            out@ == old(out)@ + seq!['"'] + escaped_chars(s@.take(k as int)),
        decreases n - k,
    {
        push_escaped_char(out, chars[k]);
        k = k + 1;
        proof {
            assert(s@.take(k as int).drop_last() =~= s@.take(k as int - 1));
            assert(out@ =~= old(out)@ + seq!['"'] + escaped_chars(s@.take(k as int)));
        }
    }
    push_char(out, '"');
    proof {
        assert(s@.take(n as int) =~= s@);
        assert(final(out)@ =~= old(out)@ + string_lit_chars(s@));
    }
}

/// Appends the canonical encoding of `value` to `out`.
#[verifier::loop_isolation(false)]
pub fn push_json(out: &mut String, value: &Json)
    ensures
        final(out)@ == old(out)@ + json_chars(value@),
    decreases *value,
{
    match value {
        Json::Null => {
            push_char(out, 'n');
            push_char(out, 'u');
            push_char(out, 'l');
            push_char(out, 'l');
            proof {
                assert(final(out)@ =~= old(out)@ + json_chars(value@));
            }
        },
        Json::Bool(b) => {
            if *b {
                push_char(out, 't');
                push_char(out, 'r');
                push_char(out, 'u');
                push_char(out, 'e');
            } else {
                push_char(out, 'f');
                push_char(out, 'a');
                push_char(out, 'l');
                push_char(out, 's');
                push_char(out, 'e');
            }
            proof {
                assert(final(out)@ =~= old(out)@ + json_chars(value@));
            }
        },
        Json::Int(n) => {
            push_dec_i64(out, *n);
        },
        Json::Str(s) => {
            push_string_lit(out, s.as_str());
        },
        Json::Arr(items) => {
            push_char(out, '[');
            let n = items.len();
            let mut k: usize = 0;
            while k < n
                invariant
                    n == items@.len(),
                    k <= n,
                    out@ == old(out)@ + seq!['['] + list_chars(
                        Json::rep_seq(items@.take(k as int)),
                    ),
                decreases n - k,
            {
                if k > 0 {
                    push_char(out, ',');
                }
                proof {
                    assert(decreases_to!(*value => *items));
                    assert(decreases_to!(*items => items@));
                    assert(decreases_to!(items@ => items@[k as int]));
                }
                push_json(out, &items[k]);
                k = k + 1;
                proof {
                    Json::lemma_rep_seq(items@.take(k as int));
                    Json::lemma_rep_seq(items@.take(k as int - 1));
                    assert(Json::rep_seq(items@.take(k as int)).drop_last() =~= Json::rep_seq(
                        items@.take(k as int - 1),
                    ));
                    assert(Json::rep_seq(items@.take(k as int)).last() == items@[k - 1].rep());
                    assert(out@ =~= old(out)@ + seq!['['] + list_chars(
                        Json::rep_seq(items@.take(k as int)),
                    ));
                }
            }
            push_char(out, ']');
            proof {
                assert(items@.take(n as int) =~= items@);
                assert(final(out)@ =~= old(out)@ + json_chars(value@));
            }
        },
        Json::Obj(pairs) => {
            push_char(out, '{');
            let n = pairs.len();
            let mut k: usize = 0;
            while k < n
                invariant
                    n == pairs@.len(),
                    k <= n,
                    out@ == old(out)@ + seq!['{'] + members_chars(
                        Json::rep_pairs(pairs@.take(k as int)),
                    ),
                decreases n - k,
            {
                let ghost prev = out@;
                if k > 0 {
                    push_char(out, ',');
                }
                push_string_lit(out, pairs[k].0.as_str());
                push_char(out, ':');
                proof {
                    assert(decreases_to!(*value => *pairs));
                    assert(decreases_to!(*pairs => pairs@));
                    assert(decreases_to!(pairs@ => pairs@[k as int]));
                    assert(decreases_to!(pairs@[k as int] => pairs@[k as int].1));
                }
                push_json(out, &pairs[k].1);
                proof {
                    let p = pairs@[k as int];
                    let m = member_chars((p.0@, p.1.rep()));
                    if k > 0 {
                        assert(out@ =~= prev + seq![','] + m);
                    } else {
                        assert(out@ =~= prev + m);
                    }
                }
                k = k + 1;
                proof {
                    let p = pairs@[k - 1];
                    Json::lemma_rep_pairs(pairs@.take(k as int));
                    Json::lemma_rep_pairs(pairs@.take(k as int - 1));
                    assert(Json::rep_pairs(pairs@.take(k as int)).drop_last() =~= Json::rep_pairs(
                        pairs@.take(k as int - 1),
                    ));
                    assert(Json::rep_pairs(pairs@.take(k as int)).last() == (p.0@, p.1.rep()));
                    if k > 1 {
                        assert(members_chars(Json::rep_pairs(pairs@.take(k as int)))
                            == members_chars(Json::rep_pairs(pairs@.take(k as int - 1))) + seq![',']
                            + member_chars((p.0@, p.1.rep())));
                    } else {
                        assert(members_chars(Json::rep_pairs(pairs@.take(k as int)))
                            == member_chars((p.0@, p.1.rep())));
                    }
                    assert(out@ =~= old(out)@ + seq!['{'] + members_chars(
                        Json::rep_pairs(pairs@.take(k as int)),
                    ));
                }
            }
            push_char(out, '}');
            proof {
                assert(pairs@.take(n as int) =~= pairs@);
                assert(final(out)@ =~= old(out)@ + json_chars(value@));
            }
        },
    }
}

/// The canonical encoding of `value`.
pub fn encode(value: &Json) -> (s: String)
    ensures
        s@ == json_chars(value@),
{
    let mut s = String::new();
    push_json(&mut s, value);
    proof {
        assert(s@ =~= json_chars(value@));
    }
    s
}

} // verus!
