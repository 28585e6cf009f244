//! A small JSON document model and its grammar.
//!
//! The wire format of the release API is JSON.  `JsonV` is the mathematical
//! model of a JSON value; the `spec_parse_*` functions define the grammar as
//! a deterministic recursive-descent parser over a sequence of characters.
//! Each function consumes a prefix of its input and returns the parsed value
//! together with the remaining suffix, or `None` when the input does not
//! start with a well-formed phrase of that production.
//!
//! Numbers are kept as their literal text: the decoder interprets the ones it
//! consumes as integers, and text of ignored fields never needs a numeric
//! value.  Unicode escape sequences (`\uXXXX`) are not part of the accepted
//! grammar.

use vstd::prelude::*;

verus! {

/// The mathematical model of a JSON value.
pub enum JsonV {
    Null,
    Bool(bool),
    /// A number, kept as its literal text (e.g. `-12`, `3.5e2`).
    Num(Seq<char>),
    Str(Seq<char>),
    Arr(Seq<JsonV>),
    Obj(Seq<(Seq<char>, JsonV)>),
}

/// JSON insignificant whitespace.
pub open spec fn is_ws(c: char) -> bool {
    c == ' ' || c == '\n' || c == '\r' || c == '\t'
}

/// ASCII decimal digit.
pub open spec fn is_digit(c: char) -> bool {
    48 <= c as u32 && c as u32 <= 57
}

/// The numeric value of one decimal digit.
pub open spec fn digit_val(c: char) -> int {
    c as u32 - 48
}

/// Drops leading whitespace.
pub open spec fn spec_skip_ws(s: Seq<char>) -> Seq<char>
    decreases s.len(),
{
    if s.len() > 0 && is_ws(s[0]) {
        spec_skip_ws(s.drop_first())
    } else {
        s
    }
}

/// The number of leading decimal digits.
pub open spec fn spec_digit_run(s: Seq<char>) -> int
    decreases s.len(),
{
    if s.len() > 0 && is_digit(s[0]) {
        1 + spec_digit_run(s.drop_first())
    } else {
        0
    }
}

/// ASCII hexadecimal digit.
pub open spec fn is_hex_digit(c: char) -> bool {
    let u = c as u32;
    (48 <= u && u <= 57) || (97 <= u && u <= 102) || (65 <= u && u <= 70)
}

/// The numeric value of one hexadecimal digit.
pub open spec fn hex_digit_val(c: char) -> int {
    let u = c as u32;
    if 48 <= u && u <= 57 {
        u - 48
    } else if 97 <= u && u <= 102 {
        u - 87
    } else {
        u - 55
    }
}

/// The value of the four hexadecimal digits at the front of `s`.
pub open spec fn hex4_val(s: Seq<char>) -> int {
    ((hex_digit_val(s[0]) * 16 + hex_digit_val(s[1])) * 16 + hex_digit_val(s[2])) * 16
        + hex_digit_val(s[3])
}

/// The character with the given code point.
pub open spec fn char_of(cp: int) -> char {
    (cp as u32) as char
}

/// The character denoted by the single-character escape `\c`, if any.
pub open spec fn spec_escape_char(c: char) -> Option<char> {
    if c == '"' {
        Some('"')
    } else if c == '\\' {
        Some('\\')
    } else if c == '/' {
        Some('/')
    } else if c == 'b' {
        Some('\u{8}')
    } else if c == 'f' {
        Some('\u{c}')
    } else if c == 'n' {
        Some('\n')
    } else if c == 'r' {
        Some('\r')
    } else if c == 't' {
        Some('\t')
    } else {
        None
    }
}

/// Parses the body of a string literal, after the opening quote, up to and
/// including the closing quote.  Returns the denoted characters and the
/// remaining input.
pub open spec fn spec_parse_str_body(s: Seq<char>) -> Option<(Seq<char>, Seq<char>)>
    decreases s.len(),
{
    if s.len() == 0 {
        None
    } else if s[0] == '"' {
        Some((Seq::empty(), s.drop_first()))
    } else if s[0] == '\\' {
        if s.len() >= 2 {
            if s[1] == 'u' {
                if s.len() >= 6 && is_hex_digit(s[2]) && is_hex_digit(s[3]) && is_hex_digit(s[4])
                    && is_hex_digit(s[5]) {
                    let code = hex4_val(s.subrange(2, 6));
                    if code < 0xD800 || code > 0xDFFF {
                        match spec_parse_str_body(s.skip(6)) {
                            Some((t, rem)) => Some((seq![char_of(code)] + t, rem)),
                            None => None,
                        }
                    } else if code <= 0xDBFF {
                        // A high surrogate must pair with a low surrogate escape.
                        if s.len() >= 12 && s[6] == '\\' && s[7] == 'u' && is_hex_digit(s[8])
                            && is_hex_digit(s[9]) && is_hex_digit(s[10]) && is_hex_digit(s[11]) {
                            let lo = hex4_val(s.subrange(8, 12));
                            if 0xDC00 <= lo && lo <= 0xDFFF {
                                let cp = 0x10000 + (code - 0xD800) * 0x400 + (lo - 0xDC00);
                                match spec_parse_str_body(s.skip(12)) {
                                    Some((t, rem)) => Some((seq![char_of(cp)] + t, rem)),
                                    None => None,
                                }
                            } else {
                                None
                            }
                        } else {
                            None
                        }
                    } else {
                        None
                    }
                } else {
                    None
                }
            } else {
                match spec_escape_char(s[1]) {
                    Some(c) => match spec_parse_str_body(s.skip(2)) {
                        Some((t, rem)) => Some((seq![c] + t, rem)),
                        None => None,
                    },
                    None => None,
                }
            }
        } else {
            None
        }
    } else if s[0] as u32 >= 32 {
        match spec_parse_str_body(s.drop_first()) {
            Some((t, rem)) => Some((seq![s[0]] + t, rem)),
            None => None,
        }
    } else {
        None
    }
}

/// Consumes the fraction part `.digits`, if present.
pub open spec fn spec_parse_frac(s: Seq<char>) -> Option<Seq<char>> {
    if s.len() > 0 && s[0] == '.' {
        let d = spec_digit_run(s.drop_first());
        if d > 0 {
            Some(s.skip(1 + d))
        } else {
            None
        }
    } else {
        Some(s)
    }
}

/// Consumes the exponent part `[eE][+-]?digits`, if present.
pub open spec fn spec_parse_expo(s: Seq<char>) -> Option<Seq<char>> {
    if s.len() > 0 && (s[0] == 'e' || s[0] == 'E') {
        let t = if s.len() > 1 && (s[1] == '+' || s[1] == '-') {
            s.skip(2)
        } else {
            s.drop_first()
        };
        let d = spec_digit_run(t);
        if d > 0 {
            Some(t.skip(d))
        } else {
            None
        }
    } else {
        Some(s)
    }
}

/// Parses a number literal: `-? (0 | [1-9][0-9]*) frac? expo?`.
/// The parsed value keeps the literal text.
pub open spec fn spec_parse_number(s: Seq<char>) -> Option<(JsonV, Seq<char>)> {
    let s1 = if s.len() > 0 && s[0] == '-' {
        s.drop_first()
    } else {
        s
    };
    if s1.len() > 0 && is_digit(s1[0]) {
        let s2 = if s1[0] == '0' {
            s1.drop_first()
        } else {
            s1.skip(spec_digit_run(s1))
        };
        match spec_parse_frac(s2) {
            Some(s3) => match spec_parse_expo(s3) {
                Some(s4) => Some((JsonV::Num(s.take(s.len() - s4.len())), s4)),
                None => None,
            },
            None => None,
        }
    } else {
        None
    }
}

/// Parses one JSON value.  The input must start directly with the value;
/// callers skip leading whitespace.
pub open spec fn spec_parse_value(s: Seq<char>) -> Option<(JsonV, Seq<char>)>
    decreases s.len(), 1int,
{
    if s.len() == 0 {
        None
    } else if s[0] == 'n' {
        if s.len() >= 4 && s[1] == 'u' && s[2] == 'l' && s[3] == 'l' {
            Some((JsonV::Null, s.skip(4)))
        } else {
            None
        }
    } else if s[0] == 't' {
        if s.len() >= 4 && s[1] == 'r' && s[2] == 'u' && s[3] == 'e' {
            Some((JsonV::Bool(true), s.skip(4)))
        } else {
            None
        }
    } else if s[0] == 'f' {
        if s.len() >= 5 && s[1] == 'a' && s[2] == 'l' && s[3] == 's' && s[4] == 'e' {
            Some((JsonV::Bool(false), s.skip(5)))
        } else {
            None
        }
    } else if s[0] == '"' {
        match spec_parse_str_body(s.drop_first()) {
            Some((t, rem)) => Some((JsonV::Str(t), rem)),
            None => None,
        }
    } else if s[0] == '-' || is_digit(s[0]) {
        spec_parse_number(s)
    } else if s[0] == '[' {
        spec_parse_array(s.drop_first())
    } else if s[0] == '{' {
        spec_parse_object(s.drop_first())
    } else {
        None
    }
}

/// Parses the inside of an array, after the opening bracket.
pub open spec fn spec_parse_array(s: Seq<char>) -> Option<(JsonV, Seq<char>)>
    decreases s.len(), 2int,
{
    let t = spec_skip_ws(s);
    if t.len() > s.len() {
        None
    } else if t.len() > 0 && t[0] == ']' {
        Some((JsonV::Arr(Seq::empty()), t.drop_first()))
    } else {
        match spec_parse_value(t) {
            Some((v, rem)) => {
                if rem.len() < s.len() {
                    spec_parse_arr_rest(rem, seq![v])
                } else {
                    None
                }
            },
            None => None,
        }
    }
}

/// Parses `(',' value)* ']'` after the elements in `acc`.
pub open spec fn spec_parse_arr_rest(s: Seq<char>, acc: Seq<JsonV>) -> Option<(JsonV, Seq<char>)>
    decreases s.len(), 3int,
{
    let t = spec_skip_ws(s);
    if t.len() > s.len() {
        None
    } else if t.len() > 0 && t[0] == ']' {
        Some((JsonV::Arr(acc), t.drop_first()))
    } else if t.len() > 0 && t[0] == ',' {
        let u = spec_skip_ws(t.drop_first());
        if u.len() < s.len() {
            match spec_parse_value(u) {
                Some((v, rem)) => {
                    if rem.len() < s.len() {
                        spec_parse_arr_rest(rem, acc.push(v))
                    } else {
                        None
                    }
                },
                None => None,
            }
        } else {
            None
        }
    } else {
        None
    }
}

/// Parses one `"key": value` member.  The input must start with the opening
/// quote of the key.
pub open spec fn spec_parse_member(s: Seq<char>) -> Option<((Seq<char>, JsonV), Seq<char>)>
    decreases s.len(), 2int,
{
    if s.len() > 0 && s[0] == '"' {
        match spec_parse_str_body(s.drop_first()) {
            Some((k, r1)) => {
                let r2 = spec_skip_ws(r1);
                if r2.len() < s.len() && r2.len() > 0 && r2[0] == ':' {
                    let r3 = spec_skip_ws(r2.drop_first());
                    if r3.len() < s.len() {
                        match spec_parse_value(r3) {
                            Some((v, rem)) => Some(((k, v), rem)),
                            None => None,
                        }
                    } else {
                        None
                    }
                } else {
                    None
                }
            },
            None => None,
        }
    } else {
        None
    }
}

/// Parses the inside of an object, after the opening brace.
pub open spec fn spec_parse_object(s: Seq<char>) -> Option<(JsonV, Seq<char>)>
    decreases s.len(), 3int,
{
    let t = spec_skip_ws(s);
    if t.len() > s.len() {
        None
    } else if t.len() > 0 && t[0] == '}' {
        Some((JsonV::Obj(Seq::empty()), t.drop_first()))
    } else {
        match spec_parse_member(t) {
            Some((m, rem)) => {
                if rem.len() < s.len() {
                    spec_parse_obj_rest(rem, seq![m])
                } else {
                    None
                }
            },
            None => None,
        }
    }
}

/// Parses `(',' member)* '}'` after the members in `acc`.
pub open spec fn spec_parse_obj_rest(
    s: Seq<char>,
    acc: Seq<(Seq<char>, JsonV)>,
) -> Option<(JsonV, Seq<char>)>
    decreases s.len(), 4int,
{
    let t = spec_skip_ws(s);
    if t.len() > s.len() {
        None
    } else if t.len() > 0 && t[0] == '}' {
        Some((JsonV::Obj(acc), t.drop_first()))
    } else if t.len() > 0 && t[0] == ',' {
        let u = spec_skip_ws(t.drop_first());
        if u.len() < s.len() {
            match spec_parse_member(u) {
                Some((m, rem)) => {
                    if rem.len() < s.len() {
                        spec_parse_obj_rest(rem, acc.push(m))
                    } else {
                        None
                    }
                },
                None => None,
            }
        } else {
            None
        }
    } else {
        None
    }
}

/// Parses a whole document: one value, surrounded by whitespace, with
/// nothing after it.
pub open spec fn spec_parse_doc(s: Seq<char>) -> Option<JsonV> {
    match spec_parse_value(spec_skip_ws(s)) {
        Some((v, rem)) => {
            if spec_skip_ws(rem).len() == 0 {
                Some(v)
            } else {
                None
            }
        },
        None => None,
    }
}

/// A run of digits is never longer than the input.
pub proof fn lemma_digit_run_len(s: Seq<char>)
    ensures
        0 <= spec_digit_run(s) <= s.len(),
    decreases s.len(),
{
    if s.len() > 0 && is_digit(s[0]) {
        lemma_digit_run_len(s.drop_first());
    }
}

/// A parsed JSON value, as built by the executable parser.
pub enum Json {
    Null,
    Bool(bool),
    /// A number, kept as its literal text.
    Num(String),
    Str(String),
    Arr(Vec<Json>),
    Obj(Vec<(String, Json)>),
}

/// The models of a sequence of parsed values.
pub open spec fn jvs(items: Seq<Json>) -> Seq<JsonV>
    decreases items,
{
    if items.len() == 0 {
        Seq::empty()
    } else {
        proof {
            assert(decreases_to!(items => items[0]));
            assert(decreases_to!(items => items.drop_first()));
        }
        seq![items[0].jv()] + jvs(items.drop_first())
    }
}

/// The models of a sequence of parsed members.
pub open spec fn jms(ms: Seq<(String, Json)>) -> Seq<(Seq<char>, JsonV)>
    decreases ms,
{
    if ms.len() == 0 {
        Seq::empty()
    } else {
        proof {
            assert(decreases_to!(ms => ms[0]));
            assert(decreases_to!(ms => ms.drop_first()));
        }
        seq![(ms[0].0@, ms[0].1.jv())] + jms(ms.drop_first())
    }
}

impl Json {
    /// The model of this parsed value.
    pub open spec fn jv(self) -> JsonV
        decreases self,
    {
        match self {
            Json::Null => JsonV::Null,
            Json::Bool(b) => JsonV::Bool(b),
            Json::Num(t) => JsonV::Num(t@),
            Json::Str(t) => JsonV::Str(t@),
            Json::Arr(items) => {
                proof {
                    assert(decreases_to!(self => items));
                    assert(decreases_to!(items => items@));
                }
                JsonV::Arr(jvs(items@))
            },
            Json::Obj(ms) => {
                proof {
                    assert(decreases_to!(self => ms));
                    assert(decreases_to!(ms => ms@));
                }
                JsonV::Obj(jms(ms@))
            },
        }
    }
}

/// Relies on `String::push`: appends exactly the given character.
#[verifier::external_body]
pub(crate) fn push_char(s: &mut String, c: char)
    ensures
        final(s)@ == old(s)@.push(c),
{
    s.push(c)
}

/// Relies on `char::from_u32`: a Unicode scalar value (any code point
/// outside the surrogate range) converts to the character with exactly that
/// code.
#[verifier::external_body]
fn char_from_code(u: u32) -> (c: char)
    requires
        u < 0xD800 || (0xE000 <= u && u <= 0x10FFFF),
    ensures
        c as u32 == u,
{
    char::from_u32(u).unwrap()
}

/// The numeric value of one hexadecimal digit, if it is one.
fn hex_val(c: char) -> (r: Option<u32>)
    ensures
        match r {
            Some(v) => is_hex_digit(c) && v as int == hex_digit_val(c) && v < 16,
            None => !is_hex_digit(c),
        },
{
    let u = c as u32;
    if 48 <= u && u <= 57 {
        Some(u - 48)
    } else if 97 <= u && u <= 102 {
        Some(u - 87)
    } else if 65 <= u && u <= 70 {
        Some(u - 55)
    } else {
        None
    }
}

/// The value of the four hexadecimal digits at `i`, if they are ones.
fn hex4_at(s: &str, n: usize, i: usize) -> (r: Option<u32>)
    requires
        n == s@.len(),
        i + 4 <= n,
    ensures
        match r {
            Some(v) => {
                &&& is_hex_digit(s@[i as int])
                &&& is_hex_digit(s@[i + 1])
                &&& is_hex_digit(s@[i + 2])
                &&& is_hex_digit(s@[i + 3])
                &&& v as int == hex4_val(s@.subrange(i as int, i + 4))
                &&& v <= 0xFFFF
            },
            None => !(is_hex_digit(s@[i as int]) && is_hex_digit(s@[i + 1]) && is_hex_digit(
                s@[i + 2],
            ) && is_hex_digit(s@[i + 3])),
        },
{
    let v0 = match hex_val(s.get_char(i)) {
        Some(v) => v,
        None => {
            return None;
        },
    };
    let v1 = match hex_val(s.get_char(i + 1)) {
        Some(v) => v,
        None => {
            return None;
        },
    };
    let v2 = match hex_val(s.get_char(i + 2)) {
        Some(v) => v,
        None => {
            return None;
        },
    };
    let v3 = match hex_val(s.get_char(i + 3)) {
        Some(v) => v,
        None => {
            return None;
        },
    };
    Some(((v0 * 16 + v1) * 16 + v2) * 16 + v3)
}

/// Index just past the leading whitespace, from `i`.
fn ws_end(s: &str, n: usize, i: usize) -> (j: usize)
    requires
        n == s@.len(),
        i <= n,
    ensures
        i <= j <= n,
        s@.skip(j as int) == spec_skip_ws(s@.skip(i as int)),
    decreases n - i,
{
    if i < n {
        let c = s.get_char(i);
        if c == ' ' || c == '\n' || c == '\r' || c == '\t' {
            proof {
                assert(s@.skip(i as int).drop_first() =~= s@.skip(i + 1 as int));
            }
            return ws_end(s, n, i + 1);
        }
    }
    proof {
        assert(s@.skip(i as int) =~= s@.skip(i as int));
    }
    i
}

/// Index just past the leading run of decimal digits, from `i`.
fn digit_run_end(s: &str, n: usize, i: usize) -> (j: usize)
    requires
        n == s@.len(),
        i <= n,
    ensures
        i <= j <= n,
        j - i == spec_digit_run(s@.skip(i as int)),
    decreases n - i,
{
    if i < n {
        let c = s.get_char(i);
        let u = c as u32;
        if 48 <= u && u <= 57 {
            proof {
                assert(s@.skip(i as int).drop_first() =~= s@.skip(i + 1 as int));
            }
            return digit_run_end(s, n, i + 1);
        }
    }
    i
}

/// The character denoted by the single-character escape `\c`, if any.
fn escape_char(c: char) -> (r: Option<char>)
    ensures
        r == spec_escape_char(c),
{
    if c == '"' {
        Some('"')
    } else if c == '\\' {
        Some('\\')
    } else if c == '/' {
        Some('/')
    } else if c == 'b' {
        Some('\u{8}')
    } else if c == 'f' {
        Some('\u{c}')
    } else if c == 'n' {
        Some('\n')
    } else if c == 'r' {
        Some('\r')
    } else if c == 't' {
        Some('\t')
    } else {
        None
    }
}

/// Parses a string literal body starting at `i` (just after the opening
/// quote); on success returns the denoted text and the index just past the
/// closing quote.
fn parse_str_body(s: &str, n: usize, i: usize) -> (r: Option<(String, usize)>)
    requires
        n == s@.len(),
        i <= n,
    ensures
        match r {
            Some((t, j)) => {
                &&& i < j <= n
                &&& spec_parse_str_body(s@.skip(i as int)) == Some((t@, s@.skip(j as int)))
            },
            None => spec_parse_str_body(s@.skip(i as int)) is None,
        },
    decreases n - i,
{
    if i >= n {
        return None;
    }
    let c = s.get_char(i);
    if c == '"' {
        proof {
            assert(s@.skip(i as int).drop_first() =~= s@.skip(i + 1 as int));
        }
        Some((String::new(), i + 1))
    } else if c == '\\' {
        if i + 1 < n {
            let c2 = s.get_char(i + 1);
            if c2 == 'u' {
                if n - i >= 6 {
                    match hex4_at(s, n, i + 2) {
                        Some(code) => {
                            proof {
                                assert(s@.skip(i as int).subrange(2, 6) =~= s@.subrange(
                                    i + 2 as int,
                                    i + 6 as int,
                                ));
                            }
                            if code < 0xD800 || code > 0xDFFF {
                                let e = char_from_code(code);
                                proof {
                                    vstd::utf8::char_u32_cast(e, code);
                                    assert(s@.skip(i as int).skip(6) =~= s@.skip(i + 6 as int));
                                }
                                match parse_str_body(s, n, i + 6) {
                                    Some((t, j)) => {
                                        let mut out = String::new();
                                        push_char(&mut out, e);
                                        out.append(t.as_str());
                                        proof {
                                            assert(out@ =~= seq![e] + t@);
                                        }
                                        Some((out, j))
                                    },
                                    None => None,
                                }
                            } else if code <= 0xDBFF {
                                if n - i >= 12 && s.get_char(i + 6) == '\\' && s.get_char(i + 7)
                                    == 'u' {
                                    match hex4_at(s, n, i + 8) {
                                        Some(lo) => {
                                            proof {
                                                assert(s@.skip(i as int).subrange(8, 12)
                                                    =~= s@.subrange(i + 8 as int, i + 12 as int));
                                            }
                                            if 0xDC00 <= lo && lo <= 0xDFFF {
                                                let cp = 0x10000 + (code - 0xD800) * 0x400 + (lo
                                                    - 0xDC00);
                                                let e = char_from_code(cp);
                                                proof {
                                                    vstd::utf8::char_u32_cast(e, cp);
                                                    assert(s@.skip(i as int).skip(12) =~= s@.skip(
                                                        i + 12 as int,
                                                    ));
                                                }
                                                match parse_str_body(s, n, i + 12) {
                                                    Some((t, j)) => {
                                                        let mut out = String::new();
                                                        push_char(&mut out, e);
                                                        out.append(t.as_str());
                                                        proof {
                                                            assert(out@ =~= seq![e] + t@);
                                                        }
                                                        Some((out, j))
                                                    },
                                                    None => None,
                                                }
                                            } else {
                                                None
                                            }
                                        },
                                        None => None,
                                    }
                                } else {
                                    None
                                }
                            } else {
                                None
                            }
                        },
                        None => None,
                    }
                } else {
                    None
                }
            } else {
                match escape_char(c2) {
                    Some(e) => {
                        proof {
                            assert(s@.skip(i as int).skip(2) =~= s@.skip(i + 2 as int));
                        }
                        match parse_str_body(s, n, i + 2) {
                            Some((t, j)) => {
                                let mut out = String::new();
                                push_char(&mut out, e);
                                out.append(t.as_str());
                                proof {
                                    assert(out@ =~= seq![e] + t@);
                                }
                                Some((out, j))
                            },
                            None => None,
                        }
                    },
                    None => None,
                }
            }
        } else {
            None
        }
    } else if c as u32 >= 32 {
        proof {
            assert(s@.skip(i as int).drop_first() =~= s@.skip(i + 1 as int));
        }
        match parse_str_body(s, n, i + 1) {
            Some((t, j)) => {
                let mut out = String::new();
                push_char(&mut out, c);
                out.append(t.as_str());
                proof {
                    assert(out@ =~= seq![c] + t@);
                }
                Some((out, j))
            },
            None => None,
        }
    } else {
        None
    }
}

/// Consumes the fraction part, if present, from `i`.
fn frac_end(s: &str, n: usize, i: usize) -> (r: Option<usize>)
    requires
        n == s@.len(),
        i <= n,
    ensures
        match r {
            Some(j) => {
                &&& i <= j <= n
                &&& spec_parse_frac(s@.skip(i as int)) == Some(s@.skip(j as int))
            },
            None => spec_parse_frac(s@.skip(i as int)) is None,
        },
{
    if i < n && s.get_char(i) == '.' {
        proof {
            assert(s@.skip(i as int).drop_first() =~= s@.skip(i + 1 as int));
        }
        let d = digit_run_end(s, n, i + 1);
        if d > i + 1 {
            proof {
                assert(s@.skip(i as int).skip(1 + (d - (i + 1))) =~= s@.skip(d as int));
            }
            Some(d)
        } else {
            None
        }
    } else {
        Some(i)
    }
}

/// Consumes the exponent part, if present, from `i`.
fn expo_end(s: &str, n: usize, i: usize) -> (r: Option<usize>)
    requires
        n == s@.len(),
        i <= n,
    ensures
        match r {
            Some(j) => {
                &&& i <= j <= n
                &&& spec_parse_expo(s@.skip(i as int)) == Some(s@.skip(j as int))
            },
            None => spec_parse_expo(s@.skip(i as int)) is None,
        },
{
    if i < n {
        let c = s.get_char(i);
        if c == 'e' || c == 'E' {
            let mut start = i + 1;
            if i + 1 < n {
                let c2 = s.get_char(i + 1);
                if c2 == '+' || c2 == '-' {
                    start = i + 2;
                }
            }
            proof {
                if start == i + 2 {
                    assert(s@.skip(i as int).skip(2) =~= s@.skip(i + 2 as int));
                } else {
                    assert(s@.skip(i as int).drop_first() =~= s@.skip(i + 1 as int));
                }
            }
            let d = digit_run_end(s, n, start);
            if d > start {
                proof {
                    assert(s@.skip(start as int).skip(d - start) =~= s@.skip(d as int));
                }
                return Some(d);
            } else {
                return None;
            }
        }
    }
    Some(i)
}

/// Parses a number literal from `i`; the parsed value keeps the literal
/// text.
fn parse_number(s: &str, n: usize, i: usize) -> (r: Option<(Json, usize)>)
    requires
        n == s@.len(),
        i <= n,
    ensures
        match r {
            Some((j, k)) => {
                &&& i < k <= n
                &&& spec_parse_number(s@.skip(i as int)) == Some((j.jv(), s@.skip(k as int)))
            },
            None => spec_parse_number(s@.skip(i as int)) is None,
        },
{
    let i1 = if i < n && s.get_char(i) == '-' {
        proof {
            assert(s@.skip(i as int).drop_first() =~= s@.skip(i + 1 as int));
        }
        i + 1
    } else {
        i
    };
    if i1 < n {
        let c1 = s.get_char(i1);
        let u1 = c1 as u32;
        if 48 <= u1 && u1 <= 57 {
            let i2 = if c1 == '0' {
                proof {
                    assert(s@.skip(i1 as int).drop_first() =~= s@.skip(i1 + 1 as int));
                }
                i1 + 1
            } else {
                let d = digit_run_end(s, n, i1);
                proof {
                    assert(s@.skip(i1 as int).skip(d - i1) =~= s@.skip(d as int));
                }
                d
            };
            match frac_end(s, n, i2) {
                Some(i3) => {
                    match expo_end(s, n, i3) {
                        Some(i4) => {
                            let text = s.substring_char(i, i4).to_owned();
                            proof {
                                let suf = s@.skip(i as int);
                                let s1v = if suf.len() > 0 && suf[0] == '-' {
                                    suf.drop_first()
                                } else {
                                    suf
                                };
                                assert(s1v == s@.skip(i1 as int));
                                assert(s1v.len() > 0 && is_digit(s1v[0]));
                                let s2v = if s1v[0] == '0' {
                                    s1v.drop_first()
                                } else {
                                    s1v.skip(spec_digit_run(s1v))
                                };
                                lemma_digit_run_len(s1v.drop_first());
                                assert(i1 < i2);
                                assert(s2v == s@.skip(i2 as int));
                                assert(spec_parse_frac(s2v) == Some(s@.skip(i3 as int)));
                                assert(spec_parse_expo(s@.skip(i3 as int)) == Some(
                                    s@.skip(i4 as int),
                                ));
                                assert(suf.take(suf.len() - s@.skip(i4 as int).len())
                                    =~= s@.subrange(i as int, i4 as int));
                                assert(spec_parse_number(suf) == Some(
                                    (JsonV::Num(s@.subrange(i as int, i4 as int)), s@.skip(i4 as int)),
                                ));
                            }
                            Some((Json::Num(text), i4))
                        },
                        None => None,
                    }
                },
                None => None,
            }
        } else {
            None
        }
    } else {
        None
    }
}

/// The model of a one-element value sequence.
pub proof fn lemma_jvs_one(x: Json)
    ensures
        jvs(seq![x]) =~= seq![x.jv()],
{
    assert(jvs(Seq::<Json>::empty()) =~= Seq::<JsonV>::empty());
    assert(seq![x].drop_first() =~= Seq::<Json>::empty());
}

/// The model of a one-element member sequence.
pub proof fn lemma_jms_one(k: String, x: Json)
    ensures
        jms(seq![(k, x)]) =~= seq![(k@, x.jv())],
{
    assert(jms(Seq::<(String, Json)>::empty()) =~= Seq::<(Seq<char>, JsonV)>::empty());
    assert(seq![(k, x)].drop_first() =~= Seq::<(String, Json)>::empty());
}

/// The model of a value sequence has the same length.
pub proof fn lemma_jvs_len(items: Seq<Json>)
    ensures
        jvs(items).len() == items.len(),
    decreases items.len(),
{
    if items.len() > 0 {
        lemma_jvs_len(items.drop_first());
    }
}

/// The model of a value sequence is the pointwise model.
pub proof fn lemma_jvs_index(items: Seq<Json>, i: int)
    requires
        0 <= i < items.len(),
    ensures
        jvs(items).len() == items.len(),
        jvs(items)[i] == items[i].jv(),
    decreases items.len(),
{
    lemma_jvs_len(items);
    if i > 0 {
        lemma_jvs_index(items.drop_first(), i - 1);
    }
}

/// The model of a member sequence has the same length.
pub proof fn lemma_jms_len(ms: Seq<(String, Json)>)
    ensures
        jms(ms).len() == ms.len(),
    decreases ms.len(),
{
    if ms.len() > 0 {
        lemma_jms_len(ms.drop_first());
    }
}

/// The model of a member sequence is the pointwise model.
pub proof fn lemma_jms_index(ms: Seq<(String, Json)>, i: int)
    requires
        0 <= i < ms.len(),
    ensures
        jms(ms).len() == ms.len(),
        jms(ms)[i] == (ms[i].0@, ms[i].1.jv()),
    decreases ms.len(),
{
    lemma_jms_len(ms);
    if i > 0 {
        lemma_jms_index(ms.drop_first(), i - 1);
    }
}

/// Pushing onto a value sequence pushes its model.
pub proof fn lemma_jvs_push(items: Seq<Json>, x: Json)
    ensures
        jvs(items.push(x)) =~= jvs(items).push(x.jv()),
    decreases items.len(),
{
    if items.len() == 0 {
        assert(items.push(x) =~= seq![x]);
        lemma_jvs_one(x);
        assert(jvs(items) =~= Seq::<JsonV>::empty());
        assert(jvs(items.push(x)) =~= jvs(items).push(x.jv()));
    } else {
        lemma_jvs_push(items.drop_first(), x);
        assert(items.push(x).drop_first() =~= items.drop_first().push(x));
        assert(items.push(x)[0] == items[0]);
    }
}

/// Pushing onto a member sequence pushes its model.
pub proof fn lemma_jms_push(ms: Seq<(String, Json)>, k: String, x: Json)
    ensures
        jms(ms.push((k, x))) =~= jms(ms).push((k@, x.jv())),
    decreases ms.len(),
{
    if ms.len() == 0 {
        assert(ms.push((k, x)) =~= seq![(k, x)]);
        lemma_jms_one(k, x);
        assert(jms(ms) =~= Seq::<(Seq<char>, JsonV)>::empty());
        assert(jms(ms.push((k, x))) =~= jms(ms).push((k@, x.jv())));
    } else {
        lemma_jms_push(ms.drop_first(), k, x);
        assert(ms.push((k, x)).drop_first() =~= ms.drop_first().push((k, x)));
        assert(ms.push((k, x))[0] == ms[0]);
    }
}

/// Parses one JSON value starting at `i`.
fn parse_value(s: &str, n: usize, i: usize) -> (r: Option<(Json, usize)>)
    requires
        n == s@.len(),
        i <= n,
    ensures
        match r {
            Some((j, k)) => {
                &&& i < k <= n
                &&& spec_parse_value(s@.skip(i as int)) == Some((j.jv(), s@.skip(k as int)))
            },
            None => spec_parse_value(s@.skip(i as int)) is None,
        },
    decreases n - i, 1int,
{
    if i >= n {
        return None;
    }
    let c = s.get_char(i);
    if c == 'n' {
        if n - i >= 4 && s.get_char(i + 1) == 'u' && s.get_char(i + 2) == 'l' && s.get_char(i + 3)
            == 'l' {
            proof {
                assert(s@.skip(i as int).skip(4) =~= s@.skip(i + 4 as int));
            }
            Some((Json::Null, i + 4))
        } else {
            None
        }
    } else if c == 't' {
        if n - i >= 4 && s.get_char(i + 1) == 'r' && s.get_char(i + 2) == 'u' && s.get_char(i + 3)
            == 'e' {
            proof {
                assert(s@.skip(i as int).skip(4) =~= s@.skip(i + 4 as int));
            }
            Some((Json::Bool(true), i + 4))
        } else {
            None
        }
    } else if c == 'f' {
        if n - i >= 5 && s.get_char(i + 1) == 'a' && s.get_char(i + 2) == 'l' && s.get_char(i + 3)
            == 's' && s.get_char(i + 4) == 'e' {
            proof {
                assert(s@.skip(i as int).skip(5) =~= s@.skip(i + 5 as int));
            }
            Some((Json::Bool(false), i + 5))
        } else {
            None
        }
    } else if c == '"' {
        proof {
            assert(s@.skip(i as int).drop_first() =~= s@.skip(i + 1 as int));
        }
        match parse_str_body(s, n, i + 1) {
            Some((t, j)) => Some((Json::Str(t), j)),
            None => None,
        }
    } else if c == '-' || (48 <= c as u32 && c as u32 <= 57) {
        parse_number(s, n, i)
    } else if c == '[' {
        proof {
            assert(s@.skip(i as int).drop_first() =~= s@.skip(i + 1 as int));
        }
        parse_array(s, n, i + 1)
    } else if c == '{' {
        proof {
            assert(s@.skip(i as int).drop_first() =~= s@.skip(i + 1 as int));
        }
        parse_object(s, n, i + 1)
    } else {
        None
    }
}

/// Parses the inside of an array, after the opening bracket.
fn parse_array(s: &str, n: usize, i: usize) -> (r: Option<(Json, usize)>)
    requires
        n == s@.len(),
        i <= n,
    ensures
        match r {
            Some((j, k)) => {
                &&& i < k <= n
                &&& spec_parse_array(s@.skip(i as int)) == Some((j.jv(), s@.skip(k as int)))
            },
            None => spec_parse_array(s@.skip(i as int)) is None,
        },
    decreases n - i, 2int,
{
    let t = ws_end(s, n, i);
    if t < n && s.get_char(t) == ']' {
        proof {
            assert(s@.skip(t as int).drop_first() =~= s@.skip(t + 1 as int));
        }
        return Some((Json::Arr(Vec::new()), t + 1));
    }
    match parse_value(s, n, t) {
        Some((v, r1)) => {
            let ghost gv = v;
            let mut acc: Vec<Json> = Vec::new();
            acc.push(v);
            proof {
                assert(acc@ =~= seq![gv]);
                lemma_jvs_one(gv);
            }
            parse_arr_rest(s, n, r1, acc)
        },
        None => None,
    }
}

/// Parses `(',' value)* ']'` after the elements already in `acc`.
fn parse_arr_rest(s: &str, n: usize, i: usize, acc: Vec<Json>) -> (r: Option<(Json, usize)>)
    requires
        n == s@.len(),
        i <= n,
    ensures
        match r {
            Some((j, k)) => {
                &&& i < k <= n
                &&& spec_parse_arr_rest(s@.skip(i as int), jvs(acc@)) == Some(
                    (j.jv(), s@.skip(k as int)),
                )
            },
            None => spec_parse_arr_rest(s@.skip(i as int), jvs(acc@)) is None,
        },
    decreases n - i, 3int,
{
    let t = ws_end(s, n, i);
    if t < n {
        let c = s.get_char(t);
        if c == ']' {
            proof {
                assert(s@.skip(t as int).drop_first() =~= s@.skip(t + 1 as int));
            }
            return Some((Json::Arr(acc), t + 1));
        }
        if c == ',' {
            proof {
                assert(s@.skip(t as int).drop_first() =~= s@.skip(t + 1 as int));
            }
            let u = ws_end(s, n, t + 1);
            match parse_value(s, n, u) {
                Some((v, r1)) => {
                    let ghost gacc = acc@;
                    let ghost gv = v;
                    let mut acc2 = acc;
                    acc2.push(v);
                    proof {
                        lemma_jvs_push(gacc, gv);
                    }
                    parse_arr_rest(s, n, r1, acc2)
                },
                None => None,
            }
        } else {
            None
        }
    } else {
        None
    }
}

/// Parses one `"key": value` member starting at `i`.
fn parse_member(s: &str, n: usize, i: usize) -> (r: Option<((String, Json), usize)>)
    requires
        n == s@.len(),
        i <= n,
    ensures
        match r {
            Some((m, j)) => {
                &&& i < j <= n
                &&& spec_parse_member(s@.skip(i as int)) == Some(
                    ((m.0@, m.1.jv()), s@.skip(j as int)),
                )
            },
            None => spec_parse_member(s@.skip(i as int)) is None,
        },
    decreases n - i, 2int,
{
    if i < n && s.get_char(i) == '"' {
        proof {
            assert(s@.skip(i as int).drop_first() =~= s@.skip(i + 1 as int));
        }
        match parse_str_body(s, n, i + 1) {
            Some((k, r1)) => {
                let r2 = ws_end(s, n, r1);
                if r2 < n && s.get_char(r2) == ':' {
                    proof {
                        assert(s@.skip(r2 as int).drop_first() =~= s@.skip(r2 + 1 as int));
                    }
                    let r3 = ws_end(s, n, r2 + 1);
                    match parse_value(s, n, r3) {
                        Some((v, r4)) => Some(((k, v), r4)),
                        None => None,
                    }
                } else {
                    None
                }
            },
            None => None,
        }
    } else {
        None
    }
}

/// Parses the inside of an object, after the opening brace.
fn parse_object(s: &str, n: usize, i: usize) -> (r: Option<(Json, usize)>)
    requires
        n == s@.len(),
        i <= n,
    ensures
        match r {
            Some((j, k)) => {
                &&& i < k <= n
                &&& spec_parse_object(s@.skip(i as int)) == Some((j.jv(), s@.skip(k as int)))
            },
            None => spec_parse_object(s@.skip(i as int)) is None,
        },
    decreases n - i, 3int,
{
    let t = ws_end(s, n, i);
    if t < n && s.get_char(t) == '}' {
        proof {
            assert(s@.skip(t as int).drop_first() =~= s@.skip(t + 1 as int));
        }
        return Some((Json::Obj(Vec::new()), t + 1));
    }
    match parse_member(s, n, t) {
        Some((m, r1)) => {
            let ghost gm = m;
            let mut acc: Vec<(String, Json)> = Vec::new();
            acc.push(m);
            proof {
                assert(acc@ =~= seq![gm]);
                lemma_jms_one(gm.0, gm.1);
            }
            parse_obj_rest(s, n, r1, acc)
        },
        None => None,
    }
}

/// Parses `(',' member)* '}'` after the members already in `acc`.
fn parse_obj_rest(s: &str, n: usize, i: usize, acc: Vec<(String, Json)>) -> (r: Option<
    (Json, usize),
>)
    requires
        n == s@.len(),
        i <= n,
    ensures
        match r {
            Some((j, k)) => {
                &&& i < k <= n
                &&& spec_parse_obj_rest(s@.skip(i as int), jms(acc@)) == Some(
                    (j.jv(), s@.skip(k as int)),
                )
            },
            None => spec_parse_obj_rest(s@.skip(i as int), jms(acc@)) is None,
        },
    decreases n - i, 4int,
{
    let t = ws_end(s, n, i);
    if t < n {
        let c = s.get_char(t);
        if c == '}' {
            proof {
                assert(s@.skip(t as int).drop_first() =~= s@.skip(t + 1 as int));
            }
            return Some((Json::Obj(acc), t + 1));
        }
        if c == ',' {
            proof {
                assert(s@.skip(t as int).drop_first() =~= s@.skip(t + 1 as int));
            }
            let u = ws_end(s, n, t + 1);
            match parse_member(s, n, u) {
                Some((m, r1)) => {
                    let ghost gacc = acc@;
                    let ghost gm = m;
                    let mut acc2 = acc;
                    acc2.push(m);
                    proof {
                        lemma_jms_push(gacc, gm.0, gm.1);
                    }
                    parse_obj_rest(s, n, r1, acc2)
                },
                None => None,
            }
        } else {
            None
        }
    } else {
        None
    }
}

/// Parses a whole document: one JSON value surrounded by whitespace, with
/// nothing after it.
pub fn parse_doc(s: &str) -> (r: Option<Json>)
    ensures
        match r {
            Some(j) => spec_parse_doc(s@) == Some(j.jv()),
            None => spec_parse_doc(s@) is None,
        },
{
    let n = s.unicode_len();
    proof {
        assert(s@.skip(0) =~= s@);
    }
    let t = ws_end(s, n, 0);
    match parse_value(s, n, t) {
        Some((v, k)) => {
            let e = ws_end(s, n, k);
            if e == n {
                Some(v)
            } else {
                None
            }
        },
        None => None,
    }
}

} // verus!
