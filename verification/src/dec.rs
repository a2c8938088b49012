//! Decimal rendering of the integers that appear in the service's JSON
//! documents (status codes, timestamps, staleness ages).

use vstd::prelude::*;
use crate::text::push_char;

verus! {

/// The decimal digit character for `d` (which must be below ten).
pub open spec fn digit_char(d: int) -> char {
    ((d + 48) as u8) as char
}

/// The decimal representation of a non-negative integer, most significant
/// digit first, with no leading zeros (zero itself is "0").
pub open spec fn dec_chars(n: int) -> Seq<char>
    decreases n,
{
    if n < 10 {
        seq![digit_char(n)]
    } else {
        dec_chars(n / 10).push(digit_char(n % 10))
    }
}

/// The decimal representation of a possibly negative integer: a leading
/// minus sign, then the magnitude's digits.
pub open spec fn dec_int_chars(n: int) -> Seq<char> {
    if n < 0 {
        seq!['-'].add(dec_chars(-n))
    } else {
        dec_chars(n)
    }
}

/// Appends the decimal digits of `n` to `out`.
fn push_dec_u64(out: &mut String, n: u64)
    ensures
        final(out)@ == old(out)@ + dec_chars(n as int),
    decreases n,
{
    if n >= 10 {
        push_dec_u64(out, n / 10);
    }
    let d = ((n % 10) as u8 + 48) as char;
    push_char(out, d);
    proof {
        if n < 10 {
            assert(final(out)@ =~= old(out)@ + dec_chars(n as int));
        } else {
            assert(final(out)@ =~= old(out)@ + dec_chars(n as int));
        }
    }
}

/// The decimal string for an unsigned integer.
pub fn u64_to_string(n: u64) -> (s: String)
    ensures
        s@ == dec_chars(n as int),
{
    let mut s = String::new();
    push_dec_u64(&mut s, n);
    proof {
        assert(s@ =~= dec_chars(n as int));
    }
    s
}

/// Appends the decimal rendering of `n`, sign included, to `out`.
pub fn push_dec_i64(out: &mut String, n: i64)
    ensures
        final(out)@ == old(out)@ + dec_int_chars(n as int),
{
    if n < 0 {
        push_char(out, '-');
        let mag: u64 = (-(n as i128)) as u64;
        push_dec_u64(out, mag);
        proof {
            assert(final(out)@ =~= old(out)@ + dec_int_chars(n as int));
        }
    } else {
        push_dec_u64(out, n as u64);
    }
}

/// The decimal string for a signed integer.
pub fn i64_to_string(n: i64) -> (s: String)
    ensures
        s@ == dec_int_chars(n as int),
{
    let mut s = String::new();
    push_dec_i64(&mut s, n);
    proof {
        assert(s@ =~= dec_int_chars(n as int));
    }
    s
}

/// A decimal representation always has at least one digit.
pub proof fn lemma_dec_chars_len(n: int)
    ensures
        dec_chars(n).len() >= 1,
        dec_int_chars(n).len() >= 1,
    decreases
            (if n < 0 {
                -n
            } else {
                n
            }),
{
    if n >= 10 {
        lemma_dec_chars_len(n / 10);
    } else if n < 0 {
        if -n >= 10 {
            lemma_dec_chars_len(-n / 10);
        }
    }
}

} // verus!
