//! Small executable string utilities shared by the JSON codec and the
//! routing layer: character-level conversions and comparisons with exact
//! contracts over the character views.

use vstd::prelude::*;

verus! {

/// Relies on `String::push`: appends the given character to the end of
/// the string.
#[verifier::external_body]
pub fn push_char(s: &mut String, c: char)
    ensures
        final(s)@ == old(s)@.push(c),
{
    s.push(c);
}

/// The characters of `s`, as a vector.
pub fn str_to_chars(s: &str) -> (v: Vec<char>)
    ensures
        v@ == s@,
{
    let mut v: Vec<char> = Vec::new();
    for c in it: s.chars()
        invariant
            v@ == it.seq().take(it.index() as int),
            it.seq() == s@,
    {
        v.push(c);
        proof {
            assert(v@ =~= it.seq().take(it.index() as int + 1));
        }
    }
    proof {
        assert(v@ =~= s@);
    }
    v
}

/// A string holding exactly the characters of `v`.
pub fn chars_to_string(v: &Vec<char>) -> (s: String)
    ensures
        s@ == v@,
{
    let mut s = String::new();
    let n = v.len();
    let mut k: usize = 0;
    while k < n
        invariant
            n == v@.len(),
            k <= n,
            s@ == v@.take(k as int),
        decreases n - k,
    {
        push_char(&mut s, v[k]);
        k = k + 1;
        proof {
            assert(s@ =~= v@.take(k as int));
        }
    }
    proof {
        assert(s@ =~= v@);
    }
    s
}

/// Whether the two string slices hold the same characters.
pub fn str_eq(a: &str, b: &str) -> (r: bool)
    ensures
        r == (a@ == b@),
{
    let sa = a.to_owned();
    let sb = b.to_owned();
    sa == sb
}

/// Whether `v` begins with `prefix`.
pub fn chars_start_with(v: &Vec<char>, prefix: &Vec<char>) -> (r: bool)
    ensures
        r == (v@.len() >= prefix@.len() && v@.take(prefix@.len() as int) == prefix@),
{
    if v.len() < prefix.len() {
        return false;
    }
    let n = prefix.len();
    let mut k: usize = 0;
    while k < n
        invariant
            n == prefix@.len(),
            n <= v@.len(),
            k <= n,
            forall|i: int| 0 <= i < k ==> v@[i] == prefix@[i],
        decreases n - k,
    {
        if v[k] != prefix[k] {
            assert(v@.take(n as int)[k as int] != prefix@[k as int]);
            return false;
        }
        k = k + 1;
    }
    proof {
        assert(v@.take(n as int) =~= prefix@);
    }
    true
}

/// Whether `v` ends with `suffix`.
pub fn chars_end_with(v: &Vec<char>, suffix: &Vec<char>) -> (r: bool)
    ensures
        r == (v@.len() >= suffix@.len() && v@.skip(v@.len() - suffix@.len()) == suffix@),
{
    if v.len() < suffix.len() {
        return false;
    }
    let n = suffix.len();
    let off = v.len() - n;
    let mut k: usize = 0;
    while k < n
        invariant
            n == suffix@.len(),
            off == v@.len() - n,
            off + n <= usize::MAX,
            k <= n,
            forall|i: int| 0 <= i < k ==> v@[off + i] == suffix@[i],
        decreases n - k,
    {
        if v[off + k] != suffix[k] {
            assert(v@.skip(off as int)[k as int] != suffix@[k as int]);
            return false;
        }
        k = k + 1;
    }
    proof {
        assert(v@.skip(off as int) =~= suffix@);
    }
    true
}

} // verus!
