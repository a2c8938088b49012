//! The JSON reader for request and response bodies.
//!
//! The accepted grammar is JSON with integer numbers (64-bit signed) and
//! the standard single-character escapes; `\u` escapes are not accepted.
//! The grammar is written down as specification functions over the input's
//! characters, and the reader returns exactly what the grammar says, or an
//! error naming the offset where the input stopped conforming.

use vstd::prelude::*;
use crate::dec::{dec_chars, dec_int_chars, u64_to_string};
use crate::json::{escaped_char, escaped_chars, json_chars, list_chars, member_chars, members_chars, string_lit_chars, Json, JsonRep};
use crate::text::{chars_to_string, push_char, str_to_chars};

verus! {

/// One more than the largest unsigned 64-bit value: the cap at which
/// digit accumulation saturates.
pub const DIGIT_CAP: u128 = 0x1_0000_0000_0000_0000;

/// JSON whitespace.
pub open spec fn is_ws(c: char) -> bool {
    c == ' ' || c == '\t' || c == '\n' || c == '\r'
}

/// A decimal digit.
pub open spec fn is_digit(c: char) -> bool {
    48 <= c as u32 <= 57
}

/// The value of a decimal digit.
pub open spec fn digit_val(c: char) -> int {
    c as u32 - 48
}

/// What a backslash escape stands for, if it is accepted.
pub open spec fn unescaped(c: char) -> Option<char> {
    if c == '"' {
        Option::Some('"')
    } else if c == '\\' {
        Option::Some('\\')
    } else if c == '/' {
        Option::Some('/')
    } else if c == 'n' {
        Option::Some('\n')
    } else if c == 'r' {
        Option::Some('\r')
    } else if c == 't' {
        Option::Some('\t')
    } else if c == 'b' {
        Option::Some('\u{8}')
    } else if c == 'f' {
        Option::Some('\u{c}')
    } else {
        Option::None
    }
}

/// The first position at or after `i` that does not hold whitespace.
pub open spec fn sp_skip_ws(s: Seq<char>, i: int) -> int
    decreases s.len() - i,
{
    if 0 <= i && i < s.len() && is_ws(s[i]) {
        sp_skip_ws(s, i + 1)
    } else {
        i
    }
}

/// The digits starting at `i`, read into `acc`: the resulting value and
/// the position after the last digit.
pub open spec fn sp_digits(s: Seq<char>, i: int, acc: int) -> (int, int)
    decreases s.len() - i,
{
    if 0 <= i && i < s.len() && is_digit(s[i]) {
        sp_digits(s, i + 1, acc * 10 + digit_val(s[i]))
    } else {
        (acc, i)
    }
}

/// The string-literal body starting at `i` (just after the opening
/// quote): its characters and the position after the closing quote, or
/// nothing where the literal is malformed.
pub open spec fn sp_string_body(s: Seq<char>, i: int) -> Option<(Seq<char>, int)>
    decreases s.len() - i,
{
    if i < 0 || i >= s.len() {
        Option::None
    } else if s[i] == '"' {
        Option::Some((Seq::empty(), i + 1))
    } else if s[i] == '\\' {
        if i + 1 >= s.len() {
            Option::None
        } else {
            match unescaped(s[i + 1]) {
                Option::None => Option::None,
                Option::Some(e) => match sp_string_body(s, i + 2) {
                    Option::None => Option::None,
                    Option::Some((rest, j)) => Option::Some((seq![e] + rest, j)),
                },
            }
        }
    } else if (s[i] as u32) < 32 {
        Option::None
    } else {
        match sp_string_body(s, i + 1) {
            Option::None => Option::None,
            Option::Some((rest, j)) => Option::Some((seq![s[i]] + rest, j)),
        }
    }
}

/// The number starting at `i`: an optional minus sign and digits, valid
/// only while the value fits a signed 64-bit integer.
pub open spec fn sp_number(s: Seq<char>, i: int) -> Option<(JsonRep, int)> {
    let neg = 0 <= i < s.len() && s[i] == '-';
    let i0 = if neg {
        i + 1
    } else {
        i
    };
    if 0 <= i0 < s.len() && is_digit(s[i0]) {
        let (v, j) = sp_digits(s, i0, 0);
        if neg {
            if v <= -(i64::MIN as int) {
                Option::Some((JsonRep::Int(-v), j))
            } else {
                Option::None
            }
        } else {
            if v <= i64::MAX as int {
                Option::Some((JsonRep::Int(v), j))
            } else {
                Option::None
            }
        }
    } else {
        Option::None
    }
}

/// Whether the four characters of "null", "true" or the five of "false"
/// stand at `i`.
pub open spec fn keyword_at(s: Seq<char>, i: int, kw: Seq<char>) -> bool {
    i + kw.len() <= s.len() && s.subrange(i, i + kw.len()) == kw
}

/// The value starting at `i` (no leading whitespace): the value and the
/// position after it.
pub open spec fn sp_value(s: Seq<char>, i: int) -> Option<(JsonRep, int)>
    decreases s.len() - i, 0int,
{
    if i < 0 || i >= s.len() {
        Option::None
    } else if s[i] == 'n' {
        if keyword_at(s, i, "null"@) {
            Option::Some((JsonRep::Null, i + 4))
        } else {
            Option::None
        }
    } else if s[i] == 't' {
        if keyword_at(s, i, "true"@) {
            Option::Some((JsonRep::Bool(true), i + 4))
        } else {
            Option::None
        }
    } else if s[i] == 'f' {
        if keyword_at(s, i, "false"@) {
            Option::Some((JsonRep::Bool(false), i + 5))
        } else {
            Option::None
        }
    } else if s[i] == '"' {
        match sp_string_body(s, i + 1) {
            Option::None => Option::None,
            Option::Some((body, j)) => Option::Some((JsonRep::Str(body), j)),
        }
    } else if s[i] == '-' || is_digit(s[i]) {
        sp_number(s, i)
    } else if s[i] == '[' {
        let j0 = sp_skip_ws(s, i + 1);
        if j0 < s.len() && s[j0] == ']' {
            Option::Some((JsonRep::Arr(Seq::empty()), j0 + 1))
        } else {
            match sp_elements(s, i + 1) {
                Option::None => Option::None,
                Option::Some((vs, j)) => Option::Some((JsonRep::Arr(vs), j)),
            }
        }
    } else if s[i] == '{' {
        let j0 = sp_skip_ws(s, i + 1);
        if j0 < s.len() && s[j0] == '}' {
            Option::Some((JsonRep::Obj(Seq::empty()), j0 + 1))
        } else {
            match sp_members(s, i + 1) {
                Option::None => Option::None,
                Option::Some((ps, j)) => Option::Some((JsonRep::Obj(ps), j)),
            }
        }
    } else {
        Option::None
    }
}

/// The non-empty element list starting at `i` (just after `[` or a
/// comma): the elements and the position after the closing bracket.
pub open spec fn sp_elements(s: Seq<char>, i: int) -> Option<(Seq<JsonRep>, int)>
    decreases s.len() - i, 1int,
{
    if i < 0 {
        Option::None
    } else {
        let j0 = sp_skip_ws(s, i);
        if !(i <= j0 <= s.len()) {
            Option::None
        } else {
            match sp_value(s, j0) {
                Option::None => Option::None,
                Option::Some((v, j)) => {
                    if !(i < j <= s.len()) {
                        Option::None
                    } else {
                        let j1 = sp_skip_ws(s, j);
                        if !(j <= j1) {
                            Option::None
                        } else if j1 < s.len() && s[j1] == ',' {
                            match sp_elements(s, j1 + 1) {
                                Option::None => Option::None,
                                Option::Some((vs, j2)) => Option::Some((seq![v] + vs, j2)),
                            }
                        } else if j1 < s.len() && s[j1] == ']' {
                            Option::Some((seq![v], j1 + 1))
                        } else {
                            Option::None
                        }
                    }
                },
            }
        }
    }
}

/// The non-empty member list starting at `i` (just after `{` or a
/// comma): the members and the position after the closing brace.
pub open spec fn sp_members(s: Seq<char>, i: int) -> Option<(Seq<(Seq<char>, JsonRep)>, int)>
    decreases s.len() - i, 1int,
{
    if i < 0 {
        Option::None
    } else {
        let j0 = sp_skip_ws(s, i);
        if !(i <= j0 <= s.len()) {
            Option::None
        } else if !(j0 < s.len() && s[j0] == '"') {
            Option::None
        } else {
            match sp_string_body(s, j0 + 1) {
                Option::None => Option::None,
                Option::Some((key, jk)) => {
                    if !(i < jk <= s.len()) {
                        Option::None
                    } else {
                        let jc = sp_skip_ws(s, jk);
                        if !(jk <= jc) {
                            Option::None
                        } else if !(jc < s.len() && s[jc] == ':') {
                            Option::None
                        } else {
                            let jv = sp_skip_ws(s, jc + 1);
                            if !(jc + 1 <= jv <= s.len()) {
                                Option::None
                            } else {
                                match sp_value(s, jv) {
                                    Option::None => Option::None,
                                    Option::Some((v, j)) => {
                                        if !(jv < j <= s.len()) {
                                            Option::None
                                        } else {
                                            let j1 = sp_skip_ws(s, j);
                                            if !(j <= j1) {
                                                Option::None
                                            } else if j1 < s.len() && s[j1] == ',' {
                                                match sp_members(s, j1 + 1) {
                                                    Option::None => Option::None,
                                                    Option::Some((ps, j2)) => Option::Some(
                                                        (seq![(key, v)] + ps, j2),
                                                    ),
                                                }
                                            } else if j1 < s.len() && s[j1] == '}' {
                                                Option::Some((seq![(key, v)], j1 + 1))
                                            } else {
                                                Option::None
                                            }
                                        }
                                    },
                                }
                            }
                        }
                    }
                },
            }
        }
    }
}

/// The value a whole text holds: its one JSON value, with nothing but
/// whitespace around it.
pub open spec fn sp_parse_text(s: Seq<char>) -> Option<JsonRep> {
    let i = sp_skip_ws(s, 0);
    match sp_value(s, i) {
        Option::None => Option::None,
        Option::Some((v, j)) => {
            if sp_skip_ws(s, j) == s.len() {
                Option::Some(v)
            } else {
                Option::None
            }
        },
    }
}

/// What kind of decode failure a body had.
#[derive(Debug)]
pub enum DecodeErrorKind {
    /// The text is not well-formed JSON.
    Syntax,
    /// The text is JSON, but not of the shape the endpoint expects.
    Shape,
}

/// Why a body failed to decode: a syntax failure at a character offset,
/// or a well-formed value of the wrong shape.
#[derive(Debug)]
pub struct DecodeError {
    pub pos: usize,
    pub kind: DecodeErrorKind,
}

/// The failure description for a syntax error at `pos`.
pub open spec fn syntax_message_chars(pos: int) -> Seq<char> {
    "malformed JSON at offset "@ + dec_chars(pos)
}

impl DecodeError {
    /// The decode failure description served to clients.
    pub fn message(&self) -> (r: String)
        ensures
            self.kind is Syntax ==> r@ == syntax_message_chars(self.pos as int),
            self.kind is Shape ==> r@ == "JSON value does not have the expected shape"@,
    {
        if let DecodeErrorKind::Shape = self.kind {
            return "JSON value does not have the expected shape".to_owned();
        }
        let mut s = "malformed JSON at offset ".to_owned();
        let digits = u64_to_string(self.pos as u64);
        let dv = str_to_chars(digits.as_str());
        let n = dv.len();
        let mut k: usize = 0;
        while k < n
            invariant
                n == dv@.len(),
                k <= n,
                s@ == "malformed JSON at offset "@ + dv@.take(k as int),
            decreases n - k,
        {
            push_char(&mut s, dv[k]);
            k = k + 1;
            proof {
                assert(s@ =~= "malformed JSON at offset "@ + dv@.take(k as int));
            }
        }
        proof {
            assert(dv@.take(n as int) =~= dv@);
        }
        s
    }
}

/// Whitespace test, as the grammar reads it.
fn ws_char(c: char) -> (r: bool)
    ensures
        r == is_ws(c),
{
    c == ' ' || c == '\t' || c == '\n' || c == '\r'
}

/// Digit test, as the grammar reads it.
fn is_digit_char(c: char) -> (r: bool)
    ensures
        r == is_digit(c),
{
    let u = c as u32;
    48 <= u && u <= 57
}

/// Skips whitespace.
fn skip_ws(s: &Vec<char>, i: usize) -> (j: usize)
    requires
        i <= s@.len(),
    ensures
        j as int == sp_skip_ws(s@, i as int),
        i <= j <= s@.len(),
    decreases s@.len() - i,
{
    if i < s.len() && ws_char(s[i]) {
        skip_ws(s, i + 1)
    } else {
        i
    }
}

/// Reads digits from `i`, exactly: `acc` saturates at the cap while the
/// ghost value keeps counting.
fn scan_digits(s: &Vec<char>, i: usize, acc: u128, Ghost(g): Ghost<int>) -> (r: (u128, usize))
    requires
        i <= s@.len(),
        0 <= g,
        acc <= DIGIT_CAP,
        acc == g || (acc == DIGIT_CAP && g >= DIGIT_CAP),
    ensures
        ({
            let (v, j) = sp_digits(s@, i as int, g);
            &&& r.1 as int == j
            &&& i <= r.1 <= s@.len()
            &&& r.0 <= DIGIT_CAP
            &&& (r.0 == v || (r.0 == DIGIT_CAP && v >= DIGIT_CAP))
        }),
    decreases s@.len() - i,
{
    if i < s.len() && is_digit_char(s[i]) {
        let d = (s[i] as u32 - 48) as u128;
        let wide = acc * 10 + d;
        let na = if wide > DIGIT_CAP {
            DIGIT_CAP
        } else {
            wide
        };
        scan_digits(s, i + 1, na, Ghost(g * 10 + digit_val(s@[i as int])))
    } else {
        (acc, i)
    }
}

/// Reads the number starting at `i`.
fn parse_number(s: &Vec<char>, i: usize) -> (r: Result<(Json, usize), DecodeError>)
    requires
        i <= s@.len(),
    ensures
        match r {
            Result::Ok((v, j)) => sp_number(s@, i as int) == Option::Some((v@, j as int)) && i < j
                <= s@.len(),
            Result::Err(_) => sp_number(s@, i as int) is None,
        },
{
    let neg = i < s.len() && s[i] == '-';
    let i0 = if neg {
        i + 1
    } else {
        i
    };
    if i0 < s.len() && is_digit_char(s[i0]) {
        let (mag, j) = scan_digits(s, i0, 0, Ghost(0int));
        let ghost v = sp_digits(s@, i0 as int, 0).0;
        proof {
            lemma_sp_digits_at_digit(s@, i0 as int, 0);
        }
        if neg {
            if mag <= 0x8000_0000_0000_0000u128 {
                let n: i64 = if mag == 0x8000_0000_0000_0000u128 {
                    i64::MIN
                } else {
                    -(mag as i64)
                };
                Result::Ok((Json::Int(n), j))
            } else {
                Result::Err(DecodeError { pos: j, kind: DecodeErrorKind::Syntax })
            }
        } else {
            if mag <= 0x7fff_ffff_ffff_ffffu128 {
                Result::Ok((Json::Int(mag as i64), j))
            } else {
                Result::Err(DecodeError { pos: j, kind: DecodeErrorKind::Syntax })
            }
        }
    } else {
        Result::Err(DecodeError { pos: i, kind: DecodeErrorKind::Syntax })
    }
}

/// A run of digits read from a non-negative start makes the position
/// advance and never shrinks the value.
proof fn lemma_sp_digits_at_digit(s: Seq<char>, i: int, acc: int)
    requires
        0 <= i < s.len(),
        is_digit(s[i]),
        0 <= acc,
    ensures
        sp_digits(s, i, acc).1 > i,
        sp_digits(s, i, acc).0 >= 0,
    decreases s.len() - i,
{
    lemma_sp_digits_value(s, i + 1, acc * 10 + digit_val(s[i]));
}

/// Digit accumulation keeps the value at or above what it started with,
/// and the end position at or after the start.
proof fn lemma_sp_digits_value(s: Seq<char>, i: int, acc: int)
    requires
        0 <= acc,
    ensures
        sp_digits(s, i, acc).0 >= 0,
        sp_digits(s, i, acc).1 >= i,
    decreases s.len() - i,
{
    if 0 <= i && i < s.len() && is_digit(s[i]) {
        lemma_sp_digits_value(s, i + 1, acc * 10 + digit_val(s[i]));
    }
}

/// Reads a string-literal body from `i` (just after the opening quote).
fn parse_string_body(s: &Vec<char>, i: usize) -> (r: Result<(String, usize), DecodeError>)
    requires
        i <= s@.len(),
    ensures
        match r {
            Result::Ok((body, j)) => sp_string_body(s@, i as int) == Option::Some(
                (body@, j as int),
            ) && i < j <= s@.len(),
            Result::Err(_) => sp_string_body(s@, i as int) is None,
        },
{
    let mut out: Vec<char> = Vec::new();
    let mut k = i;
    proof {
        match sp_string_body(s@, i as int) {
            Option::None => {},
            Option::Some((b, j)) => {
                assert(Seq::empty() + b =~= b);
            },
        }
    }
    loop
        invariant
            i <= k <= s@.len(),
            sp_string_body(s@, i as int) == prepend_body(out@, sp_string_body(s@, k as int)),
        decreases s@.len() - k,
    {
        if k >= s.len() {
            return Result::Err(DecodeError { pos: k, kind: DecodeErrorKind::Syntax });
        }
        let c = s[k];
        if c == '"' {
            let body = chars_to_string(&out);
            return Result::Ok((body, k + 1));
        }
        let ghost pre = out@;
        if c == '\\' {
            if k + 1 >= s.len() {
                return Result::Err(DecodeError { pos: k, kind: DecodeErrorKind::Syntax });
            }
            let e = s[k + 1];
            let decoded: char = if e == '"' {
                '"'
            } else if e == '\\' {
                '\\'
            } else if e == '/' {
                '/'
            } else if e == 'n' {
                '\n'
            } else if e == 'r' {
                '\r'
            } else if e == 't' {
                '\t'
            } else if e == 'b' {
                '\u{8}'
            } else if e == 'f' {
                '\u{c}'
            } else {
                proof {
                    assert(unescaped(s@[k as int + 1]) is None);
                }
                return Result::Err(DecodeError { pos: k + 1, kind: DecodeErrorKind::Syntax });
            };
            proof {
                assert(unescaped(s@[k as int + 1]) == Option::Some(decoded));
            }
            out.push(decoded);
            k = k + 2;
            proof {
                lemma_prepend_step(s@, i as int, pre, decoded, k as int);
            }
        } else {
            let u = c as u32;
            if u < 32 {
                proof {
                    assert((s@[k as int] as u32) < 32);
                }
                return Result::Err(DecodeError { pos: k, kind: DecodeErrorKind::Syntax });
            }
            out.push(c);
            k = k + 1;
            proof {
                assert(s@[k as int - 1] == c);
                assert((c as u32) >= 32);
                assert(sp_string_body(s@, k as int - 1) == (match sp_string_body(s@, k as int) {
                    Option::None => Option::None,
                    Option::Some((b, j)) => Option::Some((seq![c] + b, j)),
                }));
                lemma_prepend_step(s@, i as int, pre, c, k as int);
            }
        }
    }
}

/// An optional string body, shifted behind an already-read prefix.
pub open spec fn prepend_body(prefix: Seq<char>, r: Option<(Seq<char>, int)>) -> Option<
    (Seq<char>, int),
> {
    match r {
        Option::None => Option::None,
        Option::Some((b, j)) => Option::Some((prefix + b, j)),
    }
}

/// Extending the read prefix by one decoded character keeps the
/// prepended view of the rest of the literal.
proof fn lemma_prepend_step(s: Seq<char>, i: int, pre: Seq<char>, c: char, k: int)
    requires
        sp_string_body(s, i) == prepend_body(pre, match sp_string_body(s, k) {
            Option::None => Option::None,
            Option::Some((b, j)) => Option::Some((seq![c] + b, j)),
        }),
    ensures
        sp_string_body(s, i) == prepend_body(pre.push(c), sp_string_body(s, k)),
{
    match sp_string_body(s, k) {
        Option::None => {},
        Option::Some((b, j)) => {
            assert(pre + (seq![c] + b) =~= pre.push(c) + b);
        },
    }
}

/// Reads the value starting at `i` (no leading whitespace).
fn parse_value(s: &Vec<char>, i: usize) -> (r: Result<(Json, usize), DecodeError>)
    requires
        i <= s@.len(),
    ensures
        match r {
            Result::Ok((v, j)) => sp_value(s@, i as int) == Option::Some((v@, j as int)) && i < j
                <= s@.len(),
            Result::Err(_) => sp_value(s@, i as int) is None,
        },
    decreases s@.len() - i, 0int,
{
    if i >= s.len() {
        return Result::Err(DecodeError { pos: i, kind: DecodeErrorKind::Syntax });
    }
    let c = s[i];
    if c == 'n' {
        proof {
            reveal_strlit("null");
        }
        if s.len() - i >= 4 && s[i + 1] == 'u' && s[i + 2] == 'l' && s[i + 3] == 'l' {
            proof {
                assert(s@.subrange(i as int, i as int + 4) =~= "null"@);
            }
            return Result::Ok((Json::Null, i + 4));
        }
        proof {
            if keyword_at(s@, i as int, "null"@) {
                assert(s@.subrange(i as int, i as int + 4)[1] == 'u');
                assert(s@.subrange(i as int, i as int + 4)[2] == 'l');
                assert(s@.subrange(i as int, i as int + 4)[3] == 'l');
            }
        }
        return Result::Err(DecodeError { pos: i, kind: DecodeErrorKind::Syntax });
    }
    if c == 't' {
        proof {
            reveal_strlit("true");
        }
        if s.len() - i >= 4 && s[i + 1] == 'r' && s[i + 2] == 'u' && s[i + 3] == 'e' {
            proof {
                assert(s@.subrange(i as int, i as int + 4) =~= "true"@);
            }
            return Result::Ok((Json::Bool(true), i + 4));
        }
        proof {
            if keyword_at(s@, i as int, "true"@) {
                assert(s@.subrange(i as int, i as int + 4)[1] == 'r');
                assert(s@.subrange(i as int, i as int + 4)[2] == 'u');
                assert(s@.subrange(i as int, i as int + 4)[3] == 'e');
            }
        }
        return Result::Err(DecodeError { pos: i, kind: DecodeErrorKind::Syntax });
    }
    if c == 'f' {
        proof {
            reveal_strlit("false");
        }
        if s.len() - i >= 5 && s[i + 1] == 'a' && s[i + 2] == 'l' && s[i + 3] == 's' && s[i + 4]
            == 'e' {
            proof {
                assert(s@.subrange(i as int, i as int + 5) =~= "false"@);
            }
            return Result::Ok((Json::Bool(false), i + 5));
        }
        proof {
            if keyword_at(s@, i as int, "false"@) {
                assert(s@.subrange(i as int, i as int + 5)[1] == 'a');
                assert(s@.subrange(i as int, i as int + 5)[2] == 'l');
                assert(s@.subrange(i as int, i as int + 5)[3] == 's');
                assert(s@.subrange(i as int, i as int + 5)[4] == 'e');
            }
        }
        return Result::Err(DecodeError { pos: i, kind: DecodeErrorKind::Syntax });
    }
    if c == '"' {
        match parse_string_body(s, i + 1) {
            Result::Ok((body, j)) => {
                return Result::Ok((Json::Str(body), j));
            },
            Result::Err(e) => {
                return Result::Err(e);
            },
        }
    }
    if c == '-' || is_digit_char(c) {
        return parse_number(s, i);
    }
    if c == '[' {
        let j0 = skip_ws(s, i + 1);
        if j0 < s.len() && s[j0] == ']' {
            let vs: Vec<Json> = Vec::new();
            proof {
                assert(Json::rep_seq(vs@) =~= Seq::<JsonRep>::empty());
            }
            return Result::Ok((Json::Arr(vs), j0 + 1));
        }
        match parse_elements(s, i + 1) {
            Result::Ok((vs, j)) => {
                return Result::Ok((Json::Arr(vs), j));
            },
            Result::Err(e) => {
                return Result::Err(e);
            },
        }
    }
    if c == '{' {
        let j0 = skip_ws(s, i + 1);
        if j0 < s.len() && s[j0] == '}' {
            let ps: Vec<(String, Json)> = Vec::new();
            proof {
                assert(Json::rep_pairs(ps@) =~= Seq::<(Seq<char>, JsonRep)>::empty());
            }
            return Result::Ok((Json::Obj(ps), j0 + 1));
        }
        match parse_members(s, i + 1) {
            Result::Ok((ps, j)) => {
                return Result::Ok((Json::Obj(ps), j));
            },
            Result::Err(e) => {
                return Result::Err(e);
            },
        }
    }
    Result::Err(DecodeError { pos: i, kind: DecodeErrorKind::Syntax })
}

/// Reads the non-empty element list starting at `i` (just after `[` or a
/// comma).
fn parse_elements(s: &Vec<char>, i: usize) -> (r: Result<(Vec<Json>, usize), DecodeError>)
    requires
        i <= s@.len(),
    ensures
        match r {
            Result::Ok((vs, j)) => sp_elements(s@, i as int) == Option::Some(
                (Json::rep_seq(vs@), j as int),
            ) && i < j <= s@.len(),
            Result::Err(_) => sp_elements(s@, i as int) is None,
        },
    decreases s@.len() - i, 1int,
{
    let j0 = skip_ws(s, i);
    match parse_value(s, j0) {
        Result::Err(e) => Result::Err(e),
        Result::Ok((v, jv)) => {
            let j1 = skip_ws(s, jv);
            if j1 < s.len() && s[j1] == ',' {
                match parse_elements(s, j1 + 1) {
                    Result::Err(e) => Result::Err(e),
                    Result::Ok((vs0, j2)) => {
                        let ghost tail = vs0@;
                        let mut vs = vs0;
                        vs.insert(0, v);
                        proof {
                            Json::lemma_rep_seq(vs@);
                            Json::lemma_rep_seq(tail);
                            assert(Json::rep_seq(vs@) =~= seq![v@] + Json::rep_seq(tail));
                        }
                        Result::Ok((vs, j2))
                    },
                }
            } else if j1 < s.len() && s[j1] == ']' {
                let mut vs: Vec<Json> = Vec::new();
                vs.push(v);
                proof {
                    Json::lemma_rep_seq(vs@);
                    assert(Json::rep_seq(vs@) =~= seq![v@]);
                }
                Result::Ok((vs, j1 + 1))
            } else {
                Result::Err(DecodeError { pos: j1, kind: DecodeErrorKind::Syntax })
            }
        },
    }
}

/// Reads the non-empty member list starting at `i` (just after `{` or a
/// comma).
fn parse_members(s: &Vec<char>, i: usize) -> (r: Result<(Vec<(String, Json)>, usize), DecodeError>)
    requires
        i <= s@.len(),
    ensures
        match r {
            Result::Ok((ps, j)) => sp_members(s@, i as int) == Option::Some(
                (Json::rep_pairs(ps@), j as int),
            ) && i < j <= s@.len(),
            Result::Err(_) => sp_members(s@, i as int) is None,
        },
    decreases s@.len() - i, 1int,
{
    let j0 = skip_ws(s, i);
    if !(j0 < s.len() && s[j0] == '"') {
        return Result::Err(DecodeError { pos: j0, kind: DecodeErrorKind::Syntax });
    }
    match parse_string_body(s, j0 + 1) {
        Result::Err(e) => Result::Err(e),
        Result::Ok((key, jk)) => {
            let jc = skip_ws(s, jk);
            if !(jc < s.len() && s[jc] == ':') {
                return Result::Err(DecodeError { pos: jc, kind: DecodeErrorKind::Syntax });
            }
            let jv = skip_ws(s, jc + 1);
            match parse_value(s, jv) {
                Result::Err(e) => Result::Err(e),
                Result::Ok((v, jve)) => {
                    let j1 = skip_ws(s, jve);
                    if j1 < s.len() && s[j1] == ',' {
                        match parse_members(s, j1 + 1) {
                            Result::Err(e) => Result::Err(e),
                            Result::Ok((ps0, j2)) => {
                                let ghost tail = ps0@;
                                let ghost kv = key@;
                                let ghost vv = v@;
                                let mut ps = ps0;
                                ps.insert(0, (key, v));
                                proof {
                                    Json::lemma_rep_pairs(ps@);
                                    Json::lemma_rep_pairs(tail);
                                    assert(Json::rep_pairs(ps@) =~= seq![(kv, vv)]
                                        + Json::rep_pairs(tail));
                                }
                                Result::Ok((ps, j2))
                            },
                        }
                    } else if j1 < s.len() && s[j1] == '}' {
                        let ghost kv = key@;
                        let ghost vv = v@;
                        let mut ps: Vec<(String, Json)> = Vec::new();
                        ps.push((key, v));
                        proof {
                            Json::lemma_rep_pairs(ps@);
                            assert(Json::rep_pairs(ps@) =~= seq![(kv, vv)]);
                        }
                        Result::Ok((ps, j1 + 1))
                    } else {
                        Result::Err(DecodeError { pos: j1, kind: DecodeErrorKind::Syntax })
                    }
                },
            }
        },
    }
}

/// Decodes a whole text as one JSON value: exactly the value the grammar
/// gives it, or the offset where it stops conforming.
pub fn json_decode(text: &str) -> (r: Result<Json, DecodeError>)
    ensures
        match r {
            Result::Ok(v) => sp_parse_text(text@) == Option::Some(v@),
            Result::Err(_) => sp_parse_text(text@) is None,
        },
{
    let chars = str_to_chars(text);
    let i = skip_ws(&chars, 0);
    match parse_value(&chars, i) {
        Result::Err(e) => Result::Err(e),
        Result::Ok((v, j)) => {
            let j1 = skip_ws(&chars, j);
            if j1 == chars.len() {
                Result::Ok(v)
            } else {
                Result::Err(DecodeError { pos: j1, kind: DecodeErrorKind::Syntax })
            }
        },
    }
}


/// The decimal digit characters carry their values through the casts.
proof fn lemma_digit_char_val(d: int)
    requires
        0 <= d <= 9,
    ensures
        is_digit(crate::dec::digit_char(d)),
        digit_val(crate::dec::digit_char(d)) == d,
{
}

/// Every character of a non-negative decimal rendering is a digit.
proof fn lemma_dec_chars_digits(m: int)
    requires
        0 <= m,
    ensures
        dec_chars(m).len() >= 1,
        forall|i: int| 0 <= i < dec_chars(m).len() ==> is_digit(#[trigger] dec_chars(m)[i]),
    decreases m,
{
    if m < 10 {
        lemma_digit_char_val(m);
    } else {
        lemma_dec_chars_digits(m / 10);
        lemma_digit_char_val(m % 10);
        assert forall|i: int| 0 <= i < dec_chars(m).len() implies is_digit(
            #[trigger] dec_chars(m)[i],
        ) by {
            if i < dec_chars(m / 10).len() {
                assert(dec_chars(m)[i] == dec_chars(m / 10)[i]);
            }
        }
    }
}


/// The value of a run of digit characters, read most significant first
/// into `acc`.
spec fn digits_val(ds: Seq<char>, acc: int) -> int
    decreases ds.len(),
{
    if ds.len() == 0 {
        acc
    } else {
        digits_val(ds.drop_first(), acc * 10 + digit_val(ds[0]))
    }
}

/// Appending one digit multiplies the value by ten and adds the digit.
proof fn lemma_digits_val_push(ds: Seq<char>, c: char, acc: int)
    ensures
        digits_val(ds.push(c), acc) == digits_val(ds, acc) * 10 + digit_val(c),
    decreases ds.len(),
{
    reveal_with_fuel(digits_val, 3);
    if ds.len() == 0 {
        assert(ds.push(c)[0] == c);
        assert(ds.push(c).drop_first() =~= Seq::<char>::empty());
    } else {
        assert(ds.push(c)[0] == ds[0]);
        assert(ds.push(c).drop_first() =~= ds.drop_first().push(c));
        lemma_digits_val_push(ds.drop_first(), c, acc * 10 + digit_val(ds[0]));
    }
}

/// Reading back the decimal rendering of `m` yields `m`.
proof fn lemma_digits_val_dec_chars(m: int)
    requires
        0 <= m,
    ensures
        digits_val(dec_chars(m), 0) == m,
    decreases m,
{
    reveal_with_fuel(digits_val, 3);
    if m < 10 {
        lemma_digit_char_val(m);
        assert(dec_chars(m).drop_first() =~= Seq::<char>::empty());
    } else {
        lemma_digits_val_dec_chars(m / 10);
        lemma_digit_char_val(m % 10);
        lemma_digits_val_push(dec_chars(m / 10), crate::dec::digit_char(m % 10), 0);
    }
}

/// Reading digits at a position where exactly `ds` stand, followed by a
/// non-digit, yields their value and stops right after them.
proof fn lemma_sp_digits_prefix(w: Seq<char>, i: int, ds: Seq<char>, t: Seq<char>, acc: int)
    requires
        0 <= i <= w.len(),
        w.skip(i) == ds + t,
        forall|j: int| 0 <= j < ds.len() ==> is_digit(#[trigger] ds[j]),
        t.len() > 0 ==> !is_digit(t[0]),
    ensures
        sp_digits(w, i, acc) == (digits_val(ds, acc), i + ds.len()),
    decreases ds.len(),
{
    if ds.len() == 0 {
        if i < w.len() {
            assert(w.skip(i)[0] == w[i]);
            assert(!is_digit(w[i]));
        }
    } else {
        assert(i < w.len()) by {
            assert(w.skip(i).len() == w.len() - i);
        }
        assert(w.skip(i)[0] == w[i]);
        assert(w[i] == ds[0]);
        assert(w.skip(i + 1) =~= ds.drop_first() + t) by {
            assert forall|j: int| 0 <= j < w.len() - i - 1 implies #[trigger] w.skip(i + 1)[j]
                == (ds.drop_first() + t)[j] by {
                assert(w.skip(i + 1)[j] == w[i + 1 + j]);
                assert(w.skip(i)[j + 1] == w[i + 1 + j]);
            }
        }
        lemma_sp_digits_prefix(w, i + 1, ds.drop_first(), t, acc * 10 + digit_val(ds[0]));
    }
}

/// Reading the number whose rendering stands at `i`, followed by a
/// non-digit, yields exactly that number.
proof fn lemma_number_round_trip(w: Seq<char>, i: int, n: int, t: Seq<char>)
    requires
        i64::MIN <= n <= i64::MAX,
        0 <= i <= w.len(),
        w.skip(i) == dec_int_chars(n) + t,
        t.len() > 0 ==> !is_digit(t[0]),
    ensures
        sp_number(w, i) == Option::Some((JsonRep::Int(n), i + dec_int_chars(n).len())),
{
    assert(w.skip(i).len() == w.len() - i);
    if n < 0 {
        assert(dec_int_chars(n) == seq!['-'] + dec_chars(-n));
        assert(w.skip(i)[0] == w[i]);
        assert(w[i] == '-');
        lemma_dec_chars_digits(-n);
        lemma_digits_val_dec_chars(-n);
        assert(w.skip(i + 1) =~= dec_chars(-n) + t) by {
            assert forall|j: int| 0 <= j < w.len() - i - 1 implies #[trigger] w.skip(i + 1)[j]
                == (dec_chars(-n) + t)[j] by {
                assert(w.skip(i + 1)[j] == w[i + 1 + j]);
                assert(w.skip(i)[j + 1] == w[i + 1 + j]);
            }
        }
        lemma_sp_digits_prefix(w, i + 1, dec_chars(-n), t, 0);
        assert(w.skip(i + 1)[0] == w[i + 1]);
        assert(is_digit(w[i + 1]));
    } else {
        assert(dec_int_chars(n) == dec_chars(n));
        lemma_dec_chars_digits(n);
        lemma_digits_val_dec_chars(n);
        assert(w.skip(i)[0] == w[i]);
        assert(w[i] == dec_chars(n)[0]);
        assert(is_digit(w[i]));
        assert(w[i] != '-');
        lemma_sp_digits_prefix(w, i, dec_chars(n), t, 0);
    }
}


/// A character a string literal can carry through the codec: anything
/// printable, or one of the escaped control characters.
pub open spec fn char_in_grammar(c: char) -> bool {
    c as u32 >= 32 || c == '\n' || c == '\r' || c == '\t' || c == '\u{8}' || c == '\u{c}'
}

/// A string whose every character the codec carries.
pub open spec fn str_in_grammar(s: Seq<char>) -> bool {
    forall|i: int| 0 <= i < s.len() ==> char_in_grammar(#[trigger] s[i])
}

/// A value the reader's grammar can express: integers within the signed
/// 64-bit range, and strings of carryable characters, throughout.
pub open spec fn rep_in_grammar(v: JsonRep) -> bool
    decreases v, 0int,
{
    match v {
        JsonRep::Null => true,
        JsonRep::Bool(_) => true,
        JsonRep::Int(n) => i64::MIN <= n <= i64::MAX,
        JsonRep::Str(s) => str_in_grammar(s),
        JsonRep::Arr(items) => items_in_grammar(items),
        JsonRep::Obj(ps) => pairs_in_grammar(ps),
    }
}

/// Every element lies within the grammar.
pub open spec fn items_in_grammar(items: Seq<JsonRep>) -> bool
    decreases items, 1int,
{
    items.len() == 0 || (items_in_grammar(items.drop_last()) && rep_in_grammar(items.last()))
}

/// Every member's key and value lie within the grammar.
pub open spec fn pairs_in_grammar(ps: Seq<(Seq<char>, JsonRep)>) -> bool
    decreases ps, 1int,
{
    ps.len() == 0 || (pairs_in_grammar(ps.drop_last()) && str_in_grammar(ps.last().0)
        && rep_in_grammar(ps.last().1))
}

/// Splitting a suffix of `w` along a known concatenation: the prefix's
/// characters stand at their positions, and the rest is the suffix after
/// them.
proof fn lemma_skip_concat(w: Seq<char>, i: int, x: Seq<char>, y: Seq<char>)
    requires
        0 <= i <= w.len(),
        w.skip(i) == x + y,
    ensures
        i + x.len() <= w.len(),
        w.skip(i + x.len()) =~= y,
        forall|j: int| 0 <= j < x.len() ==> w[i + j] == #[trigger] x[j],
{
    assert(w.skip(i).len() == w.len() - i);
    assert forall|j: int| 0 <= j < x.len() implies w[i + j] == #[trigger] x[j] by {
        assert(w.skip(i)[j] == w[i + j]);
        assert((x + y)[j] == x[j]);
    }
    assert forall|j: int| 0 <= j < y.len() implies #[trigger] w.skip(i + x.len())[j] == y[j] by {
        assert(w.skip(i + x.len())[j] == w[i + x.len() + j]);
        assert(w.skip(i)[x.len() + j] == w[i + x.len() + j]);
        assert((x + y)[x.len() + j] == y[j]);
    }
}

/// The escaped body of a non-empty string starts with its first
/// character's escape.
proof fn lemma_escaped_chars_first(s: Seq<char>)
    requires
        s.len() > 0,
    ensures
        escaped_chars(s) == escaped_char(s[0]) + escaped_chars(s.drop_first()),
    decreases s.len(),
{
    if s.len() == 1 {
        assert(s.drop_last() =~= Seq::<char>::empty());
        assert(s.drop_first() =~= Seq::<char>::empty());
        assert(escaped_chars(s) =~= escaped_char(s[0]) + escaped_chars(s.drop_first()));
    } else {
        lemma_escaped_chars_first(s.drop_last());
        assert(s.drop_last()[0] == s[0]);
        assert(s.drop_last().drop_first() =~= s.drop_first().drop_last());
        assert(s.drop_first().last() == s.last());
        assert(escaped_chars(s) == escaped_chars(s.drop_last()) + escaped_char(s.last()));
        assert(escaped_chars(s.drop_first()) == escaped_chars(s.drop_first().drop_last())
            + escaped_char(s.drop_first().last()));
        assert(escaped_chars(s) =~= escaped_char(s[0]) + escaped_chars(s.drop_first()));
    }
}

/// Reading a string-literal body back: where the escaped body of `s` and
/// a closing quote stand at `i`, the reader yields exactly `s` and stops
/// after the quote.
proof fn lemma_string_body_round_trip(w: Seq<char>, i: int, s: Seq<char>, t: Seq<char>)
    requires
        str_in_grammar(s),
        0 <= i <= w.len(),
        w.skip(i) == escaped_chars(s) + seq!['"'] + t,
    ensures
        sp_string_body(w, i) == Option::Some((s, i + escaped_chars(s).len() + 1)),
    decreases s.len(),
{
    assert(w.skip(i).len() == w.len() - i);
    if s.len() == 0 {
        assert(escaped_chars(s) =~= Seq::<char>::empty());
        assert(w.skip(i)[0] == w[i]);
        assert(w[i] == '"');
    } else {
        let c = s[0];
        lemma_escaped_chars_first(s);
        let esc = escaped_char(c);
        let rest = escaped_chars(s.drop_first()) + seq!['"'] + t;
        assert(w.skip(i) =~= esc + rest);
        lemma_skip_concat(w, i, esc, rest);
        if c == '"' || c == '\\' || c == '\n' || c == '\r' || c == '\t' || c == '\u{8}' || c
            == '\u{c}' {
            assert(esc.len() == 2);
            assert(w[i] == '\\');
            assert(unescaped(w[i + 1]) == Option::Some(c));
            lemma_string_body_round_trip(w, i + 2, s.drop_first(), t);
            assert(seq![c] + s.drop_first() =~= s);
        } else {
            assert(char_in_grammar(c));
            assert(c as u32 >= 32);
            assert(esc =~= seq![c]);
            assert(esc[0] == c);
            assert(w[i + 0] == esc[0]);
            assert(w[i] == c);
            lemma_string_body_round_trip(w, i + 1, s.drop_first(), t);
            assert(seq![c] + s.drop_first() =~= s);
        }
    }
}


/// The first character of any encoded value: never whitespace, never a
/// list or object terminator, never a comma, and the encoding is never
/// empty.
proof fn lemma_json_chars_first(v: JsonRep)
    requires
        rep_in_grammar(v),
    ensures
        json_chars(v).len() > 0,
        !is_ws(json_chars(v)[0]),
        json_chars(v)[0] != ']',
        json_chars(v)[0] != '}',
        json_chars(v)[0] != ',',
        json_chars(v)[0] != ':',
{
    match v {
        JsonRep::Null => {},
        JsonRep::Bool(_) => {},
        JsonRep::Int(n) => {
            if n < 0 {
                crate::dec::lemma_dec_chars_len(-n);
                assert(json_chars(v)[0] == '-');
            } else {
                lemma_dec_chars_digits(n);
                assert(json_chars(v)[0] == dec_chars(n)[0]);
                assert(is_digit(dec_chars(n)[0]));
            }
        },
        JsonRep::Str(s) => {
            assert(json_chars(v)[0] == '"');
        },
        JsonRep::Arr(_) => {
            assert(json_chars(v)[0] == '[');
        },
        JsonRep::Obj(_) => {
            assert(json_chars(v)[0] == '{');
        },
    }
}

/// A non-empty element list's encoding starts with its first element's
/// encoding, followed by a comma and the rest where there is more.
proof fn lemma_list_chars_first(items: Seq<JsonRep>)
    requires
        items.len() > 0,
    ensures
        items.len() == 1 ==> list_chars(items) == json_chars(items[0]),
        items.len() > 1 ==> list_chars(items) == json_chars(items[0]) + seq![','] + list_chars(
            items.drop_first(),
        ),
    decreases items.len(),
{
    reveal_with_fuel(list_chars, 3);
    if items.len() == 1 {
        assert(items.last() == items[0]);
    } else if items.len() == 2 {
        assert(items.drop_last()[0] == items[0]);
        assert(items.drop_last().len() == 1);
        assert(items.drop_last().last() == items[0]);
        assert(items.drop_first().len() == 1);
        assert(items.drop_first().last() == items[1]);
        assert(list_chars(items.drop_first()) == json_chars(items[1]));
        assert(list_chars(items) =~= json_chars(items[0]) + seq![','] + list_chars(
            items.drop_first(),
        ));
    } else {
        lemma_list_chars_first(items.drop_last());
        assert(items.drop_last()[0] == items[0]);
        assert(items.drop_last().drop_first() =~= items.drop_first().drop_last());
        assert(items.drop_first().last() == items.last());
        assert(list_chars(items.drop_first()) == list_chars(items.drop_first().drop_last())
            + seq![','] + json_chars(items.drop_first().last()));
        assert(list_chars(items) =~= json_chars(items[0]) + seq![','] + list_chars(
            items.drop_first(),
        ));
    }
}

/// A non-empty member list's encoding starts with its first member's
/// encoding, followed by a comma and the rest where there is more.
proof fn lemma_members_chars_first(ps: Seq<(Seq<char>, JsonRep)>)
    requires
        ps.len() > 0,
    ensures
        ps.len() == 1 ==> members_chars(ps) == member_chars(ps[0]),
        ps.len() > 1 ==> members_chars(ps) == member_chars(ps[0]) + seq![','] + members_chars(
            ps.drop_first(),
        ),
    decreases ps.len(),
{
    reveal_with_fuel(members_chars, 3);
    if ps.len() == 1 {
        assert(ps.last() == ps[0]);
    } else if ps.len() == 2 {
        assert(ps.drop_last()[0] == ps[0]);
        assert(ps.drop_last().len() == 1);
        assert(ps.drop_last().last() == ps[0]);
        assert(ps.drop_first().len() == 1);
        assert(ps.drop_first().last() == ps[1]);
        assert(members_chars(ps.drop_first()) == member_chars(ps[1]));
        assert(members_chars(ps) =~= member_chars(ps[0]) + seq![','] + members_chars(
            ps.drop_first(),
        ));
    } else {
        lemma_members_chars_first(ps.drop_last());
        assert(ps.drop_last()[0] == ps[0]);
        assert(ps.drop_last().drop_first() =~= ps.drop_first().drop_last());
        assert(ps.drop_first().last() == ps.last());
        assert(members_chars(ps.drop_first()) == members_chars(ps.drop_first().drop_last())
            + seq![','] + member_chars(ps.drop_first().last()));
        assert(members_chars(ps) =~= member_chars(ps[0]) + seq![','] + members_chars(
            ps.drop_first(),
        ));
    }
}


/// Skipping whitespace where none stands does not move.
proof fn lemma_skip_ws_still(w: Seq<char>, i: int)
    requires
        0 <= i <= w.len(),
        i < w.len() ==> !is_ws(w[i]),
    ensures
        sp_skip_ws(w, i) == i,
{
}

/// Every element of a list within the grammar is itself within the
/// grammar, and so is the list without its first element.
proof fn lemma_items_grammar_first(items: Seq<JsonRep>)
    requires
        items.len() > 0,
        items_in_grammar(items),
    ensures
        rep_in_grammar(items[0]),
        items_in_grammar(items.drop_first()),
    decreases items.len(),
{
    reveal_with_fuel(items_in_grammar, 3);
    if items.len() == 1 {
        assert(items.last() == items[0]);
        assert(items.drop_first() =~= Seq::<JsonRep>::empty());
    } else {
        lemma_items_grammar_first(items.drop_last());
        assert(items.drop_last()[0] == items[0]);
        assert(items.drop_first().drop_last() =~= items.drop_last().drop_first());
        assert(items.drop_first().last() == items.last());
        assert(items.drop_first().len() > 0);
    }
}

/// Every member of a list within the grammar is itself within the
/// grammar, and so is the list without its first member.
proof fn lemma_pairs_grammar_first(ps: Seq<(Seq<char>, JsonRep)>)
    requires
        ps.len() > 0,
        pairs_in_grammar(ps),
    ensures
        str_in_grammar(ps[0].0),
        rep_in_grammar(ps[0].1),
        pairs_in_grammar(ps.drop_first()),
    decreases ps.len(),
{
    reveal_with_fuel(pairs_in_grammar, 3);
    if ps.len() == 1 {
        assert(ps.last() == ps[0]);
        assert(ps.drop_first() =~= Seq::<(Seq<char>, JsonRep)>::empty());
    } else {
        lemma_pairs_grammar_first(ps.drop_last());
        assert(ps.drop_last()[0] == ps[0]);
        assert(ps.drop_first().drop_last() =~= ps.drop_last().drop_first());
        assert(ps.drop_first().last() == ps.last());
        assert(ps.drop_first().len() > 0);
    }
}

/// Law, value level: where the encoding of a value within the grammar
/// stands at `i`, followed by nothing that could extend a number, the
/// reader yields exactly that value and stops right after the encoding.
proof fn lemma_value_round_trip(w: Seq<char>, i: int, v: JsonRep, t: Seq<char>)
    requires
        rep_in_grammar(v),
        0 <= i <= w.len(),
        w.skip(i) == json_chars(v) + t,
        t.len() > 0 ==> !is_digit(t[0]),
    ensures
        sp_value(w, i) == Option::Some((v, i + json_chars(v).len())),
    decreases v, 0int,
{
    lemma_json_chars_first(v);
    lemma_skip_concat(w, i, json_chars(v), t);
    assert(w[i + 0] == json_chars(v)[0]);
    match v {
        JsonRep::Null => {
            assert(w[i + 1] == json_chars(v)[1]);
            assert(w[i + 2] == json_chars(v)[2]);
            assert(w[i + 3] == json_chars(v)[3]);
            reveal_strlit("null");
            assert("null"@ =~= seq!['n', 'u', 'l', 'l']);
            proof_keyword(w, i, seq!['n', 'u', 'l', 'l'], "null");
        },
        JsonRep::Bool(b) => {
            if b {
                assert(w[i + 1] == json_chars(v)[1]);
                assert(w[i + 2] == json_chars(v)[2]);
                assert(w[i + 3] == json_chars(v)[3]);
                reveal_strlit("true");
                assert("true"@ =~= seq!['t', 'r', 'u', 'e']);
                proof_keyword(w, i, seq!['t', 'r', 'u', 'e'], "true");
            } else {
                assert(w[i + 1] == json_chars(v)[1]);
                assert(w[i + 2] == json_chars(v)[2]);
                assert(w[i + 3] == json_chars(v)[3]);
                assert(w[i + 4] == json_chars(v)[4]);
                reveal_strlit("false");
                assert("false"@ =~= seq!['f', 'a', 'l', 's', 'e']);
                proof_keyword(w, i, seq!['f', 'a', 'l', 's', 'e'], "false");
            }
        },
        JsonRep::Int(n) => {
            if n < 0 {
                assert(json_chars(v) == seq!['-'] + dec_chars(-n));
                assert(json_chars(v)[0] == '-');
            } else {
                assert(json_chars(v) == dec_chars(n));
                lemma_dec_chars_digits(n);
                assert(is_digit(json_chars(v)[0]));
            }
            assert(w[i] == '-' || is_digit(w[i]));
            lemma_number_round_trip(w, i, n, t);
        },
        JsonRep::Str(s) => {
            assert(w[i] == '"');
            assert(w.skip(i) =~= seq!['"'] + (escaped_chars(s) + seq!['"'] + t));
            lemma_skip_concat(w, i, seq!['"'], escaped_chars(s) + seq!['"'] + t);
            lemma_string_body_round_trip(w, i + 1, s, t);
        },
        JsonRep::Arr(items) => {
            assert(w[i] == '[');
            if items.len() == 0 {
                assert(list_chars(items) =~= Seq::<char>::empty());
                assert(json_chars(v).len() == 2) by {
                    assert(json_chars(v) == seq!['['] + list_chars(items) + seq![']']);
                }
                assert(w[i + 1] == json_chars(v)[1]);
                assert(json_chars(v)[1] == ']');
                lemma_skip_ws_still(w, i + 1);
                assert(items =~= Seq::<JsonRep>::empty());
            } else {
                lemma_items_grammar_first(items);
                lemma_list_chars_first(items);
                lemma_json_chars_first(items[0]);
                assert(w.skip(i) =~= seq!['['] + (list_chars(items) + seq![']'] + t));
                lemma_skip_concat(w, i, seq!['['], list_chars(items) + seq![']'] + t);
                assert(w[i + 1] == list_chars(items)[0]) by {
                    assert(w.skip(i + 1)[0] == w[i + 1]);
                }
                assert(list_chars(items)[0] == json_chars(items[0])[0]);
                lemma_skip_ws_still(w, i + 1);
                assert(decreases_to!(v => items));
                lemma_elements_round_trip(w, i + 1, items, t);
            }
        },
        JsonRep::Obj(ps) => {
            assert(w[i] == '{');
            if ps.len() == 0 {
                assert(members_chars(ps) =~= Seq::<char>::empty());
                assert(json_chars(v).len() == 2) by {
                    assert(json_chars(v) == seq!['{'] + members_chars(ps) + seq!['}']);
                }
                assert(w[i + 1] == json_chars(v)[1]);
                assert(json_chars(v)[1] == '}');
                lemma_skip_ws_still(w, i + 1);
                assert(ps =~= Seq::<(Seq<char>, JsonRep)>::empty());
            } else {
                lemma_pairs_grammar_first(ps);
                lemma_members_chars_first(ps);
                assert(w.skip(i) =~= seq!['{'] + (members_chars(ps) + seq!['}'] + t));
                lemma_skip_concat(w, i, seq!['{'], members_chars(ps) + seq!['}'] + t);
                assert(w[i + 1] == members_chars(ps)[0]) by {
                    assert(w.skip(i + 1)[0] == w[i + 1]);
                }
                assert(members_chars(ps)[0] == member_chars(ps[0])[0]);
                assert(member_chars(ps[0])[0] == '"');
                lemma_skip_ws_still(w, i + 1);
                assert(decreases_to!(v => ps));
                lemma_members_round_trip(w, i + 1, ps, t);
            }
        },
    }
}

/// The four- or five-character keywords read back as themselves.
proof fn proof_keyword(w: Seq<char>, i: int, kw: Seq<char>, lit: &str)
    requires
        0 <= i,
        i + kw.len() <= w.len(),
        lit@ == kw,
        forall|j: int| 0 <= j < kw.len() ==> w[i + j] == #[trigger] kw[j],
    ensures
        keyword_at(w, i, lit@),
{
    assert(w.subrange(i, i + kw.len()) =~= kw);
}

/// Law, element-list level: where the encodings of one or more elements,
/// comma separated and closed by a bracket, stand at `i`, the reader
/// yields exactly those elements and stops after the bracket.
proof fn lemma_elements_round_trip(w: Seq<char>, i: int, items: Seq<JsonRep>, t: Seq<char>)
    requires
        items.len() > 0,
        items_in_grammar(items),
        0 <= i <= w.len(),
        w.skip(i) == list_chars(items) + seq![']'] + t,
    ensures
        sp_elements(w, i) == Option::Some((items, i + list_chars(items).len() + 1)),
    decreases items, 1int,
{
    lemma_items_grammar_first(items);
    lemma_list_chars_first(items);
    lemma_json_chars_first(items[0]);
    assert(w.skip(i).len() == w.len() - i);
    if items.len() == 1 {
        assert(w.skip(i) =~= json_chars(items[0]) + (seq![']'] + t));
        assert(decreases_to!(items => items[0]));
        lemma_value_round_trip(w, i, items[0], seq![']'] + t);
        lemma_skip_concat(w, i, json_chars(items[0]), seq![']'] + t);
        let j = i + json_chars(items[0]).len();
        assert(w[i + 0] == json_chars(items[0])[0]);
        lemma_skip_ws_still(w, i);
        assert(w[j] == ']') by {
            assert(w.skip(j)[0] == w[j]);
        }
        lemma_skip_ws_still(w, j);
        assert(seq![items[0]] =~= items);
    } else {
        let tail = seq![','] + list_chars(items.drop_first()) + seq![']'] + t;
        assert(w.skip(i) =~= json_chars(items[0]) + tail);
        assert(tail[0] == ',');
        assert(decreases_to!(items => items[0]));
        lemma_value_round_trip(w, i, items[0], tail);
        lemma_skip_concat(w, i, json_chars(items[0]), tail);
        let j = i + json_chars(items[0]).len();
        assert(w[i + 0] == json_chars(items[0])[0]);
        lemma_skip_ws_still(w, i);
        assert(w[j] == ',') by {
            assert(w.skip(j)[0] == w[j]);
        }
        lemma_skip_ws_still(w, j);
        assert(w.skip(j) =~= seq![','] + (list_chars(items.drop_first()) + seq![']'] + t));
        lemma_skip_concat(w, j, seq![','], list_chars(items.drop_first()) + seq![']'] + t);
        lemma_elements_round_trip(w, j + 1, items.drop_first(), t);
        assert(seq![items[0]] + items.drop_first() =~= items);
    }
}

/// Law, member-list level: where the encodings of one or more members,
/// comma separated and closed by a brace, stand at `i`, the reader yields
/// exactly those members and stops after the brace.
proof fn lemma_members_round_trip(w: Seq<char>, i: int, ps: Seq<(Seq<char>, JsonRep)>, t: Seq<char>)
    requires
        ps.len() > 0,
        pairs_in_grammar(ps),
        0 <= i <= w.len(),
        w.skip(i) == members_chars(ps) + seq!['}'] + t,
    ensures
        sp_members(w, i) == Option::Some((ps, i + members_chars(ps).len() + 1)),
    decreases ps, 1int,
{
    lemma_pairs_grammar_first(ps);
    lemma_members_chars_first(ps);
    lemma_json_chars_first(ps[0].1);
    assert(w.skip(i).len() == w.len() - i);
    let key = ps[0].0;
    let val = ps[0].1;
    let tail = if ps.len() == 1 {
        seq!['}'] + t
    } else {
        seq![','] + members_chars(ps.drop_first()) + seq!['}'] + t
    };
    assert(tail[0] == '}' || tail[0] == ',');
    assert(w.skip(i) =~= member_chars(ps[0]) + tail);
    // The member itself: quoted key, colon, value.
    assert(member_chars(ps[0]) == string_lit_chars(key) + seq![':'] + json_chars(val));
    assert(w.skip(i) =~= seq!['"'] + (escaped_chars(key) + seq!['"'] + (seq![':']
        + json_chars(val) + tail)));
    lemma_skip_concat(
        w,
        i,
        seq!['"'],
        escaped_chars(key) + seq!['"'] + (seq![':'] + json_chars(val) + tail),
    );
    assert(seq!['"'][0] == '"');
    assert(w[i + 0] == seq!['"'][0]);
    assert(w[i + 0] == '"');
    lemma_skip_ws_still(w, i);
    lemma_string_body_round_trip(w, i + 1, key, seq![':'] + json_chars(val) + tail);
    let jk = i + 1 + escaped_chars(key).len() + 1;
    assert(w.skip(i + 1) =~= escaped_chars(key) + seq!['"'] + (seq![':'] + json_chars(val)
        + tail));
    lemma_skip_concat(w, i + 1, escaped_chars(key) + seq!['"'], seq![':'] + json_chars(val) + tail);
    assert(w.skip(jk) =~= seq![':'] + (json_chars(val) + tail));
    assert(w[jk] == ':') by {
        assert(w.skip(jk)[0] == w[jk]);
    }
    lemma_skip_ws_still(w, jk);
    lemma_skip_concat(w, jk, seq![':'], json_chars(val) + tail);
    let jv = jk + 1;
    assert(w.skip(jv) =~= json_chars(val) + tail);
    assert(w[jv] == json_chars(val)[0]) by {
        assert(w.skip(jv)[0] == w[jv]);
    }
    lemma_skip_ws_still(w, jv);
    assert(decreases_to!(ps => ps[0]));
    assert(decreases_to!(ps[0] => ps[0].1));
    lemma_value_round_trip(w, jv, val, tail);
    lemma_skip_concat(w, jv, json_chars(val), tail);
    let j = jv + json_chars(val).len();
    assert(w[j] == tail[0]) by {
        assert(w.skip(j)[0] == w[j]);
    }
    lemma_skip_ws_still(w, j);
    if ps.len() == 1 {
        assert(w[j] == '}');
        assert(seq![(key, val)] =~= ps);
    } else {
        assert(w[j] == ',');
        assert(w.skip(j) =~= seq![','] + (members_chars(ps.drop_first()) + seq!['}'] + t));
        lemma_skip_concat(w, j, seq![','], members_chars(ps.drop_first()) + seq!['}'] + t);
        lemma_members_round_trip(w, j + 1, ps.drop_first(), t);
        assert(seq![(key, val)] + ps.drop_first() =~= ps);
    }
}

/// Law: the reader reads back exactly what the writer wrote.  For every
/// value within the grammar — integers in the signed 64-bit range and
/// strings of carryable characters throughout — decoding the canonical
/// encoding yields the value itself.
pub proof fn lemma_encode_then_decode(v: JsonRep)
    requires
        rep_in_grammar(v),
    ensures
        sp_parse_text(json_chars(v)) == Option::Some(v),
{
    let w = json_chars(v);
    lemma_json_chars_first(v);
    assert(w.skip(0) =~= w + Seq::<char>::empty());
    lemma_skip_ws_still(w, 0);
    lemma_value_round_trip(w, 0, v, Seq::empty());
    lemma_skip_ws_still(w, w.len() as int);
}


} // verus!
