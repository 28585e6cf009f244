//! The round-trip law: decoding a rendered release yields the release back.
//!
//! The proof runs the specification parser over the canonical rendering of
//! a value and shows, production by production, that it reconstructs the
//! value exactly, with the remaining input untouched.

use vstd::prelude::*;

use crate::decode::{
    all_digits, digits_val, spec_int_of, spec_uint_of, spec_decode_release, spec_asset_of,
    spec_assets_of, spec_release_of, walk_asset, walk_release, asset_acc_init, release_acc_init,
    AssetAcc, ReleaseAcc,
};
use crate::json::{
    char_of, hex4_val, hex_digit_val, is_digit, is_hex_digit, is_ws, spec_digit_run,
    spec_escape_char, spec_parse_arr_rest, spec_parse_doc, spec_parse_expo, spec_parse_frac,
    spec_parse_member, spec_parse_number, spec_parse_obj_rest, spec_parse_object,
    spec_parse_str_body, spec_parse_value, spec_skip_ws, spec_parse_array, JsonV,
};
use crate::model::{AssetV, ReleaseV};
use crate::render::{
    dec_of, digit_char, esc_char, escape_seq, hex_digit_char, int_lit_of, json_of_asset,
    json_of_release, jsons_of_assets, num_lit_wf, render_member, render_members, render_more,
    render_more_members, render_items, spec_render_json, spec_render_release, wf_items, wf_json,
    wf_members,
};

verus! {

/// A character that may begin a rendered JSON value.
pub open spec fn value_start(c: char) -> bool {
    c == 'n' || c == 't' || c == 'f' || c == '"' || c == '-' || is_digit(c) || c == '[' || c == '{'
}

/// A character that could extend a number literal.
pub open spec fn num_cont(c: char) -> bool {
    is_digit(c) || c == '.' || c == 'e' || c == 'E'
}

/// Skipping whitespace leaves an input that does not start with whitespace
/// unchanged.
proof fn lemma_skip_ws_id(s: Seq<char>)
    requires
        s.len() == 0 || !is_ws(s[0]),
    ensures
        spec_skip_ws(s) == s,
{
}

/// The digit run of digits followed by a non-digit is the digits' length.
proof fn lemma_digit_run_concat(d: Seq<char>, rest: Seq<char>)
    requires
        all_digits(d),
        rest.len() > 0 ==> !is_digit(rest[0]),
    ensures
        spec_digit_run(d + rest) == d.len(),
    decreases d.len(),
{
    if d.len() == 0 {
        assert(d + rest =~= rest);
    } else {
        assert((d + rest)[0] == d[0]);
        assert((d + rest).drop_first() =~= d.drop_first() + rest);
        assert(all_digits(d.drop_first()));
        lemma_digit_run_concat(d.drop_first(), rest);
    }
}

/// One digit's character denotes that digit.
proof fn lemma_digit_char(d: int)
    requires
        0 <= d < 10,
    ensures
        is_digit(digit_char(d)),
        crate::json::digit_val(digit_char(d)) == d,
        d >= 1 ==> digit_char(d) != '0',
{
}

/// The canonical decimal rendering denotes the rendered number.
proof fn lemma_dec_of(n: int)
    requires
        n >= 0,
    ensures
        dec_of(n).len() > 0,
        all_digits(dec_of(n)),
        digits_val(dec_of(n)) == n,
        n >= 1 ==> dec_of(n)[0] != '0',
        is_digit(dec_of(n)[0]),
        num_lit_wf(dec_of(n)),
    decreases n,
{
    if n < 10 {
        lemma_digit_char(n);
        assert(seq![digit_char(n)].drop_last() =~= Seq::<char>::empty());
        assert(seq![digit_char(n)].last() == digit_char(n));
        assert(digits_val(Seq::<char>::empty()) == 0);
        assert(digits_val(dec_of(n)) == n);
    } else {
        lemma_dec_of(n / 10);
        lemma_digit_char(n % 10);
        assert(dec_of(n) == dec_of(n / 10).push(digit_char(n % 10)));
        assert(dec_of(n).drop_last() =~= dec_of(n / 10));
        assert(dec_of(n).last() == digit_char(n % 10));
        assert(dec_of(n)[0] == dec_of(n / 10)[0]);
        assert(n / 10 * 10 + n % 10 == n);
        assert(all_digits(dec_of(n))) by {
            assert(forall|i: int|
                0 <= i < dec_of(n).len() ==> is_digit(#[trigger] dec_of(n)[i])) by {
                assert(forall|i: int|
                    0 <= i < dec_of(n / 10).len() ==> is_digit(#[trigger] dec_of(n / 10)[i]));
                assert(dec_of(n).len() == dec_of(n / 10).len() + 1);
                assert(forall|i: int|
                    0 <= i < dec_of(n / 10).len() ==> dec_of(n)[i] == dec_of(n / 10)[i]);
            }
        }
    }
}

/// The canonical integer rendering denotes the rendered integer.
proof fn lemma_int_lit(x: int)
    ensures
        num_lit_wf(int_lit_of(x)),
        spec_int_of(int_lit_of(x)) == Some(x),
        int_lit_of(x)[0] == '-' || is_digit(int_lit_of(x)[0]),
        int_lit_of(x).len() > 0,
{
    if x < 0 {
        lemma_dec_of(-x);
        assert(int_lit_of(x) == seq!['-'] + dec_of(-x));
        assert(int_lit_of(x)[0] == '-');
        assert(int_lit_of(x).drop_first() =~= dec_of(-x));
    } else {
        lemma_dec_of(x);
        assert(int_lit_of(x)[0] == dec_of(x)[0]);
        assert(int_lit_of(x)[0] != '-');
    }
}

/// The rendering of a digit string parses back to it.
proof fn lemma_uint_of_dec(n: int)
    requires
        n >= 0,
    ensures
        spec_uint_of(dec_of(n)) == Some(n),
{
    lemma_dec_of(n);
}

/// One hexadecimal digit's character denotes that digit.
proof fn lemma_hex_digit_char(d: int)
    requires
        0 <= d < 16,
    ensures
        is_hex_digit(hex_digit_char(d)),
        hex_digit_val(hex_digit_char(d)) == d,
{
}

/// A rendered string literal body parses back to the string.
proof fn lemma_str_body_inv(t: Seq<char>, rest: Seq<char>)
    ensures
        spec_parse_str_body(escape_seq(t) + seq!['"'] + rest) == Some((t, rest)),
    decreases t.len(),
{
    let s = escape_seq(t) + seq!['"'] + rest;
    if t.len() == 0 {
        assert(escape_seq(t) =~= Seq::<char>::empty());
        assert(s =~= seq!['"'] + rest);
        assert(s[0] == '"');
        assert(s.drop_first() =~= rest);
    } else {
        let c = t[0];
        let e = escape_seq(t.drop_first());
        assert(escape_seq(t) == esc_char(c) + e);
        lemma_str_body_inv(t.drop_first(), rest);
        assert(seq![c] + t.drop_first() =~= t);
        if c == '"' || c == '\\' {
            assert(esc_char(c) == seq!['\\', c]);
            assert(s[0] == '\\');
            assert(s.len() >= 2);
            assert(s[1] == c);
            assert(spec_escape_char(c) == Some(c));
            assert(s.skip(2) =~= e + seq!['"'] + rest);
        } else if (c as u32) < 32 {
            let u = c as u32 as int;
            let hi = hex_digit_char(u / 16);
            let lo = hex_digit_char(u % 16);
            assert(esc_char(c) == seq!['\\', 'u', '0', '0', hi, lo]);
            lemma_hex_digit_char(u / 16);
            lemma_hex_digit_char(u % 16);
            assert(s[0] == '\\');
            assert(s.len() >= 6);
            assert(s[1] == 'u');
            assert(s[2] == '0' && s[3] == '0' && s[4] == hi && s[5] == lo);
            assert(s.subrange(2, 6) =~= seq!['0', '0', hi, lo]);
            assert(is_hex_digit('0') && hex_digit_val('0') == 0);
            let code = hex4_val(s.subrange(2, 6));
            assert(code == hex_digit_val(hi) * 16 + hex_digit_val(lo));
            assert(u / 16 * 16 + u % 16 == u);
            assert(code == u);
            assert(code < 0xD800);
            vstd::utf8::char_u32_cast(c, code as u32);
            assert(char_of(code) == c);
            assert(s.skip(6) =~= e + seq!['"'] + rest);
        } else {
            assert(esc_char(c) == seq![c]);
            assert(s[0] == c);
            assert(c as u32 >= 32);
            assert(s.drop_first() =~= e + seq!['"'] + rest);
        }
    }
}

/// A rendered canonical number literal, followed by a delimiter, parses
/// back to itself.
proof fn lemma_number_inv(t: Seq<char>, rest: Seq<char>)
    requires
        num_lit_wf(t),
        rest.len() > 0,
        !num_cont(rest[0]),
    ensures
        spec_parse_number(t + rest) == Some((JsonV::Num(t), rest)),
{
    let s = t + rest;
    let d = if t[0] == '-' {
        t.drop_first()
    } else {
        t
    };
    assert(s[0] == t[0]);
    if t[0] == '-' {
        assert(s.drop_first() =~= d + rest);
    } else {
        assert(s =~= d + rest);
    }
    let s1 = d + rest;
    assert(s1[0] == d[0]);
    assert(is_digit(d[0]));
    if d[0] == '0' {
        assert(d.len() == 1);
        assert(s1.drop_first() =~= rest);
    } else {
        lemma_digit_run_concat(d, rest);
        assert(s1.skip(d.len() as int) =~= rest);
    }
    assert(spec_parse_frac(rest) == Some(rest));
    assert(spec_parse_expo(rest) == Some(rest));
    assert(s.take(s.len() - rest.len()) =~= t);
}

/// A rendered canonical value is non-empty and starts with a
/// value-starting character.
proof fn lemma_render_first(j: JsonV)
    requires
        wf_json(j),
    ensures
        spec_render_json(j).len() > 0,
        value_start(spec_render_json(j)[0]),
{
    match j {
        JsonV::Null => {},
        JsonV::Bool(_) => {},
        JsonV::Num(t) => {
            assert(t[0] == '-' || is_digit(t[0]));
        },
        JsonV::Str(t) => {
            assert(spec_render_json(j)[0] == '"');
        },
        JsonV::Arr(items) => {
            assert(spec_render_json(j)[0] == '[');
        },
        JsonV::Obj(ms) => {
            assert(spec_render_json(j)[0] == '{');
        },
    }
}

/// A rendered canonical value, followed by any input (non-empty and not
/// extending a number when the value is one), parses back to the value.
#[verifier::rlimit(100)]
proof fn lemma_value_inv(j: JsonV, rest: Seq<char>)
    requires
        wf_json(j),
        j is Num ==> rest.len() > 0 && !num_cont(rest[0]),
    ensures
        spec_parse_value(spec_render_json(j) + rest) == Some((j, rest)),
    decreases j,
{
    let s = spec_render_json(j) + rest;
    match j {
        JsonV::Null => {
            assert(s.len() >= 4);
            assert(s[0] == 'n' && s[1] == 'u' && s[2] == 'l' && s[3] == 'l');
            assert(s.skip(4) =~= rest);
        },
        JsonV::Bool(b) => {
            if b {
                assert(s.len() >= 4);
                assert(s[0] == 't' && s[1] == 'r' && s[2] == 'u' && s[3] == 'e');
                assert(s.skip(4) =~= rest);
            } else {
                assert(s.len() >= 5);
                assert(s[0] == 'f' && s[1] == 'a' && s[2] == 'l' && s[3] == 's' && s[4] == 'e');
                assert(s.skip(5) =~= rest);
            }
        },
        JsonV::Num(t) => {
            assert(s[0] == t[0]);
            assert(t[0] == '-' || is_digit(t[0]));
            lemma_number_inv(t, rest);
        },
        JsonV::Str(t) => {
            assert(s[0] == '"');
            assert(s.drop_first() =~= escape_seq(t) + seq!['"'] + rest);
            lemma_str_body_inv(t, rest);
        },
        JsonV::Arr(items) => {
            assert(s[0] == '[');
            assert(decreases_to!(j => items));
            lemma_array_inv(items, rest);
            assert(s.drop_first() =~= render_items(items) + seq![']'] + rest);
        },
        JsonV::Obj(ms) => {
            assert(s[0] == '{');
            assert(decreases_to!(j => ms));
            lemma_object_inv(ms, rest);
            assert(s.drop_first() =~= render_members(ms) + seq!['}'] + rest);
        },
    }
}

/// The rendered inside of an array parses back to the array.
#[verifier::rlimit(100)]
proof fn lemma_array_inv(items: Seq<JsonV>, rest: Seq<char>)
    requires
        wf_items(items),
    ensures
        spec_parse_array(render_items(items) + seq![']'] + rest) == Some(
            (JsonV::Arr(items), rest),
        ),
    decreases items,
{
    let inner = render_items(items) + seq![']'] + rest;
    if items.len() == 0 {
        assert(render_items(items) =~= Seq::<char>::empty());
        assert(inner =~= seq![']'] + rest);
        assert(inner[0] == ']');
        lemma_skip_ws_id(inner);
        assert(inner.drop_first() =~= rest);
        assert(items =~= Seq::<JsonV>::empty());
    } else {
        let head = items[0];
        let tail = items.drop_first();
        assert(wf_json(head) && wf_items(tail));
        assert(decreases_to!(items => head));
        assert(decreases_to!(items => tail));
        let rest1 = render_more(tail) + seq![']'] + rest;
        assert(render_items(items) == spec_render_json(head) + render_more(tail));
        assert(inner =~= spec_render_json(head) + rest1);
        lemma_render_first(head);
        assert(inner[0] == spec_render_json(head)[0]);
        assert(!is_ws(inner[0]) && inner[0] != ']');
        lemma_skip_ws_id(inner);
        assert(rest1.len() > 0 && !num_cont(rest1[0])) by {
            if tail.len() == 0 {
                assert(render_more(tail) =~= Seq::<char>::empty());
                assert(rest1 =~= seq![']'] + rest);
                assert(rest1[0] == ']');
            } else {
                assert(rest1[0] == ',');
            }
        }
        lemma_value_inv(head, rest1);
        assert(spec_parse_value(inner) == Some((head, rest1)));
        assert(rest1.len() < inner.len());
        lemma_more_inv(tail, seq![head], rest);
        assert(seq![head] + tail =~= items);
    }
}

/// The rendered inside of an object parses back to the object.
#[verifier::rlimit(100)]
proof fn lemma_object_inv(ms: Seq<(Seq<char>, JsonV)>, rest: Seq<char>)
    requires
        wf_members(ms),
    ensures
        spec_parse_object(render_members(ms) + seq!['}'] + rest) == Some((JsonV::Obj(ms), rest)),
    decreases ms,
{
    let inner = render_members(ms) + seq!['}'] + rest;
    if ms.len() == 0 {
        assert(render_members(ms) =~= Seq::<char>::empty());
        assert(inner =~= seq!['}'] + rest);
        assert(inner[0] == '}');
        lemma_skip_ws_id(inner);
        assert(inner.drop_first() =~= rest);
        assert(ms =~= Seq::<(Seq<char>, JsonV)>::empty());
    } else {
        let head = ms[0];
        let tail = ms.drop_first();
        assert(wf_json(head.1) && wf_members(tail));
        assert(decreases_to!(ms => head));
        assert(decreases_to!(ms => tail));
        let rest1 = render_more_members(tail) + seq!['}'] + rest;
        assert(render_members(ms) == render_member(head) + render_more_members(tail));
        assert(inner =~= render_member(head) + rest1);
        assert(render_member(head)[0] == '"');
        assert(inner[0] == '"');
        lemma_skip_ws_id(inner);
        assert(rest1.len() > 0 && !num_cont(rest1[0])) by {
            if tail.len() == 0 {
                assert(render_more_members(tail) =~= Seq::<char>::empty());
                assert(rest1 =~= seq!['}'] + rest);
                assert(rest1[0] == '}');
            } else {
                assert(rest1[0] == ',');
            }
        }
        lemma_member_inv(head, rest1);
        assert(spec_parse_member(inner) == Some((head, rest1)));
        assert(rest1.len() < inner.len());
        lemma_more_members_inv(tail, seq![head], rest);
        assert(seq![head] + tail =~= ms);
    }
}

/// Rendered further array elements, closed by a bracket, parse back.
proof fn lemma_more_inv(items: Seq<JsonV>, acc: Seq<JsonV>, rest: Seq<char>)
    requires
        wf_items(items),
    ensures
        spec_parse_arr_rest(render_more(items) + seq![']'] + rest, acc) == Some(
            (JsonV::Arr(acc + items), rest),
        ),
    decreases items,
{
    let s = render_more(items) + seq![']'] + rest;
    if items.len() == 0 {
        assert(render_more(items) =~= Seq::<char>::empty());
        assert(s =~= seq![']'] + rest);
        assert(s[0] == ']');
        lemma_skip_ws_id(s);
        assert(s.drop_first() =~= rest);
        assert(acc + items =~= acc);
    } else {
        let head = items[0];
        let tail = items.drop_first();
        assert(wf_json(head) && wf_items(tail));
        assert(decreases_to!(items => head));
        assert(decreases_to!(items => tail));
        let rest1 = render_more(tail) + seq![']'] + rest;
        assert(render_more(items) == seq![','] + spec_render_json(head) + render_more(tail));
        assert(s[0] == ',');
        lemma_skip_ws_id(s);
        let u = s.drop_first();
        assert(u =~= spec_render_json(head) + rest1);
        lemma_render_first(head);
        assert(u[0] == spec_render_json(head)[0]);
        assert(!is_ws(u[0]));
        lemma_skip_ws_id(u);
        assert(u.len() < s.len());
        assert(rest1.len() > 0 && !num_cont(rest1[0])) by {
            if tail.len() == 0 {
                assert(render_more(tail) =~= Seq::<char>::empty());
                assert(rest1 =~= seq![']'] + rest);
                assert(rest1[0] == ']');
            } else {
                assert(rest1[0] == ',');
            }
        }
        lemma_value_inv(head, rest1);
        assert(spec_parse_value(u) == Some((head, rest1)));
        assert(rest1.len() < s.len());
        lemma_more_inv(tail, acc.push(head), rest);
        assert(acc.push(head) + tail =~= acc + items);
    }
}

/// A rendered member, followed by any non-empty delimiter input, parses
/// back to the member.
proof fn lemma_member_inv(m: (Seq<char>, JsonV), rest: Seq<char>)
    requires
        wf_json(m.1),
        rest.len() > 0,
        !num_cont(rest[0]),
    ensures
        spec_parse_member(render_member(m) + rest) == Some((m, rest)),
    decreases m,
{
    let s = render_member(m) + rest;
    let rv = spec_render_json(m.1) + rest;
    assert(s[0] == '"');
    assert(s.drop_first() =~= escape_seq(m.0) + seq!['"'] + (seq![':'] + rv));
    lemma_str_body_inv(m.0, seq![':'] + rv);
    let r1 = seq![':'] + rv;
    assert(spec_parse_str_body(s.drop_first()) == Some((m.0, r1)));
    assert(r1[0] == ':');
    lemma_skip_ws_id(r1);
    assert(r1.len() < s.len());
    assert(r1.drop_first() =~= rv);
    lemma_render_first(m.1);
    assert(rv[0] == spec_render_json(m.1)[0]);
    assert(!is_ws(rv[0]));
    lemma_skip_ws_id(rv);
    assert(rv.len() < s.len());
    assert(decreases_to!(m => m.1));
    lemma_value_inv(m.1, rest);
    assert(spec_parse_value(rv) == Some((m.1, rest)));
    assert(m == (m.0, m.1));
}

/// Rendered further members, closed by a brace, parse back.
proof fn lemma_more_members_inv(ms: Seq<(Seq<char>, JsonV)>, acc: Seq<(Seq<char>, JsonV)>, rest: Seq<char>)
    requires
        wf_members(ms),
    ensures
        spec_parse_obj_rest(render_more_members(ms) + seq!['}'] + rest, acc) == Some(
            (JsonV::Obj(acc + ms), rest),
        ),
    decreases ms,
{
    let s = render_more_members(ms) + seq!['}'] + rest;
    if ms.len() == 0 {
        assert(render_more_members(ms) =~= Seq::<char>::empty());
        assert(s =~= seq!['}'] + rest);
        assert(s[0] == '}');
        lemma_skip_ws_id(s);
        assert(s.drop_first() =~= rest);
        assert(acc + ms =~= acc);
    } else {
        let head = ms[0];
        let tail = ms.drop_first();
        assert(wf_json(head.1) && wf_members(tail));
        assert(decreases_to!(ms => head));
        assert(decreases_to!(ms => tail));
        let rest1 = render_more_members(tail) + seq!['}'] + rest;
        assert(render_more_members(ms) == seq![','] + render_member(head) + render_more_members(
            tail,
        ));
        assert(s[0] == ',');
        lemma_skip_ws_id(s);
        let u = s.drop_first();
        assert(u =~= render_member(head) + rest1);
        assert(render_member(head)[0] == '"');
        assert(u[0] == '"');
        lemma_skip_ws_id(u);
        assert(u.len() < s.len());
        assert(rest1.len() > 0 && !num_cont(rest1[0])) by {
            if tail.len() == 0 {
                assert(render_more_members(tail) =~= Seq::<char>::empty());
                assert(rest1 =~= seq!['}'] + rest);
                assert(rest1[0] == '}');
            } else {
                assert(rest1[0] == ',');
            }
        }
        lemma_member_inv(head, rest1);
        assert(spec_parse_member(u) == Some((head, rest1)));
        assert(rest1.len() < s.len());
        lemma_more_members_inv(tail, acc.push(head), rest);
        assert(acc.push(head) + tail =~= acc + ms);
    }
}

/// A rendered canonical document parses back to its value.
pub proof fn lemma_parse_render_doc(j: JsonV)
    requires
        wf_json(j),
        !(j is Num),
    ensures
        spec_parse_doc(spec_render_json(j)) == Some(j),
{
    let s = spec_render_json(j);
    lemma_render_first(j);
    lemma_skip_ws_id(s);
    assert(s + Seq::<char>::empty() =~= s);
    lemma_value_inv(j, Seq::empty());
    assert(spec_parse_value(s) == Some((j, Seq::<char>::empty())));
    assert(spec_skip_ws(Seq::<char>::empty()).len() == 0);
}

/// Decoding the canonical JSON value of an asset yields the asset.
proof fn lemma_asset_of_json(a: AssetV)
    requires
        a.wf(),
    ensures
        spec_asset_of(json_of_asset(a)) == Ok::<AssetV, crate::decode::DecodeError>(a),
{
    reveal_strlit("url");
    reveal_strlit("browser_download_url");
    reveal_strlit("id");
    reveal_strlit("name");
    reveal_strlit("size");
    assert("url"@.len() == 3);
    assert("browser_download_url"@.len() == 20);
    assert("id"@.len() == 2);
    assert("name"@.len() == 4);
    assert("size"@.len() == 4);
    assert("name"@[0] == 'n' && "size"@[0] == 's');
    let m0 = ("url"@, JsonV::Str(a.url));
    let m1 = ("browser_download_url"@, JsonV::Str(a.browser_download_url));
    let m2 = ("id"@, JsonV::Num(dec_of(a.id)));
    let m3 = ("name"@, JsonV::Str(a.name));
    let m4 = ("size"@, JsonV::Num(int_lit_of(a.size)));
    let ms = seq![m0, m1, m2, m3, m4];
    assert(json_of_asset(a) == JsonV::Obj(ms));
    lemma_uint_of_dec(a.id);
    lemma_int_lit(a.size);
    let st0 = asset_acc_init();
    let st1 = AssetAcc { url: Some(a.url), ..st0 };
    let st2 = AssetAcc { browser_download_url: Some(a.browser_download_url), ..st1 };
    let st3 = AssetAcc { id: Some(a.id), ..st2 };
    let st4 = AssetAcc { name: Some(a.name), ..st3 };
    let st5 = AssetAcc { size: Some(a.size), ..st4 };
    assert(ms.drop_first() =~= seq![m1, m2, m3, m4]);
    assert(seq![m1, m2, m3, m4].drop_first() =~= seq![m2, m3, m4]);
    assert(seq![m2, m3, m4].drop_first() =~= seq![m3, m4]);
    assert(seq![m3, m4].drop_first() =~= seq![m4]);
    assert(seq![m4].drop_first() =~= Seq::<(Seq<char>, JsonV)>::empty());
    assert(walk_asset(Seq::<(Seq<char>, JsonV)>::empty(), st5) == Ok::<
        AssetAcc,
        crate::decode::DecodeError,
    >(st5));
    assert(walk_asset(seq![m4], st4) == Ok::<AssetAcc, crate::decode::DecodeError>(st5));
    assert(walk_asset(seq![m3, m4], st3) == Ok::<AssetAcc, crate::decode::DecodeError>(st5));
    assert(walk_asset(seq![m2, m3, m4], st2) == Ok::<AssetAcc, crate::decode::DecodeError>(st5));
    assert(walk_asset(seq![m1, m2, m3, m4], st1) == Ok::<AssetAcc, crate::decode::DecodeError>(
        st5,
    ));
    assert(walk_asset(ms, st0) == Ok::<AssetAcc, crate::decode::DecodeError>(st5));
    assert(AssetV {
        url: a.url,
        browser_download_url: a.browser_download_url,
        id: a.id,
        name: a.name,
        size: a.size,
    } == a);
}

/// Decoding the canonical JSON values of an asset list yields the list.
proof fn lemma_assets_of_json(s: Seq<AssetV>)
    requires
        forall|i: int| 0 <= i < s.len() ==> (#[trigger] s[i]).wf(),
    ensures
        spec_assets_of(jsons_of_assets(s)) == Ok::<Seq<AssetV>, crate::decode::DecodeError>(s),
    decreases s.len(),
{
    if s.len() == 0 {
        assert(jsons_of_assets(s) =~= Seq::<JsonV>::empty());
        assert(s =~= Seq::<AssetV>::empty());
    } else {
        assert(jsons_of_assets(s)[0] == json_of_asset(s[0]));
        lemma_asset_of_json(s[0]);
        assert(jsons_of_assets(s).drop_first() =~= jsons_of_assets(s.drop_first()));
        assert(forall|i: int| 0 <= i < s.drop_first().len() ==> (#[trigger] s.drop_first()[i]).wf());
        lemma_assets_of_json(s.drop_first());
        assert(seq![s[0]] + s.drop_first() =~= s);
    }
}

/// Decoding the canonical JSON value of a release yields the release.
proof fn lemma_release_of_json(r: ReleaseV)
    requires
        r.wf(),
    ensures
        spec_release_of(json_of_release(r)) == Ok::<ReleaseV, crate::decode::DecodeError>(r),
{
    reveal_strlit("id");
    reveal_strlit("tag_name");
    reveal_strlit("assets");
    assert("id"@.len() == 2);
    assert("tag_name"@.len() == 8);
    assert("assets"@.len() == 6);
    let m0 = ("id"@, JsonV::Num(dec_of(r.id)));
    let m1 = ("tag_name"@, JsonV::Str(r.tag_name));
    let m2 = ("assets"@, JsonV::Arr(jsons_of_assets(r.assets)));
    let ms = seq![m0, m1, m2];
    assert(json_of_release(r) == JsonV::Obj(ms));
    lemma_uint_of_dec(r.id);
    lemma_assets_of_json(r.assets);
    let st0 = release_acc_init();
    let st1 = ReleaseAcc { id: Some(r.id), ..st0 };
    let st2 = ReleaseAcc { tag_name: Some(r.tag_name), ..st1 };
    let st3 = ReleaseAcc { assets: Some(r.assets), ..st2 };
    assert(ms.drop_first() =~= seq![m1, m2]);
    assert(seq![m1, m2].drop_first() =~= seq![m2]);
    assert(seq![m2].drop_first() =~= Seq::<(Seq<char>, JsonV)>::empty());
    assert(walk_release(Seq::<(Seq<char>, JsonV)>::empty(), st3) == Ok::<
        ReleaseAcc,
        crate::decode::DecodeError,
    >(st3));
    assert(walk_release(seq![m2], st2) == Ok::<ReleaseAcc, crate::decode::DecodeError>(st3));
    assert(walk_release(seq![m1, m2], st1) == Ok::<ReleaseAcc, crate::decode::DecodeError>(st3));
    assert(walk_release(ms, st0) == Ok::<ReleaseAcc, crate::decode::DecodeError>(st3));
    assert(ReleaseV { id: r.id, tag_name: r.tag_name, assets: r.assets } == r);
}

/// Prepending a well-formed member keeps a member list canonical.
proof fn lemma_wf_members_cons(m: (Seq<char>, JsonV), ms: Seq<(Seq<char>, JsonV)>)
    requires
        wf_json(m.1),
        wf_members(ms),
    ensures
        wf_members(seq![m] + ms),
{
    assert((seq![m] + ms)[0] == m);
    assert((seq![m] + ms).drop_first() =~= ms);
}

/// The canonical JSON value of an asset is in canonical form.
proof fn lemma_wf_json_of_asset(a: AssetV)
    requires
        a.wf(),
    ensures
        wf_json(json_of_asset(a)),
{
    lemma_dec_of(a.id);
    lemma_int_lit(a.size);
    let m0 = ("url"@, JsonV::Str(a.url));
    let m1 = ("browser_download_url"@, JsonV::Str(a.browser_download_url));
    let m2 = ("id"@, JsonV::Num(dec_of(a.id)));
    let m3 = ("name"@, JsonV::Str(a.name));
    let m4 = ("size"@, JsonV::Num(int_lit_of(a.size)));
    let ms = seq![m0, m1, m2, m3, m4];
    assert(wf_members(Seq::<(Seq<char>, JsonV)>::empty()));
    lemma_wf_members_cons(m4, Seq::<(Seq<char>, JsonV)>::empty());
    assert(seq![m4] + Seq::<(Seq<char>, JsonV)>::empty() =~= seq![m4]);
    lemma_wf_members_cons(m3, seq![m4]);
    assert(seq![m3] + seq![m4] =~= seq![m3, m4]);
    lemma_wf_members_cons(m2, seq![m3, m4]);
    assert(seq![m2] + seq![m3, m4] =~= seq![m2, m3, m4]);
    lemma_wf_members_cons(m1, seq![m2, m3, m4]);
    assert(seq![m1] + seq![m2, m3, m4] =~= seq![m1, m2, m3, m4]);
    lemma_wf_members_cons(m0, seq![m1, m2, m3, m4]);
    assert(seq![m0] + seq![m1, m2, m3, m4] =~= ms);
    assert(wf_members(ms));
}

/// The canonical JSON values of an asset list are in canonical form.
proof fn lemma_wf_items_of_assets(s: Seq<AssetV>)
    requires
        forall|i: int| 0 <= i < s.len() ==> (#[trigger] s[i]).wf(),
    ensures
        wf_items(jsons_of_assets(s)),
    decreases s.len(),
{
    if s.len() == 0 {
        assert(jsons_of_assets(s) =~= Seq::<JsonV>::empty());
    } else {
        assert(jsons_of_assets(s)[0] == json_of_asset(s[0]));
        lemma_wf_json_of_asset(s[0]);
        assert(jsons_of_assets(s).drop_first() =~= jsons_of_assets(s.drop_first()));
        assert(forall|i: int| 0 <= i < s.drop_first().len() ==> (#[trigger] s.drop_first()[i]).wf());
        lemma_wf_items_of_assets(s.drop_first());
    }
}

/// The canonical JSON value of a release is in canonical form.
proof fn lemma_wf_json_of_release(r: ReleaseV)
    requires
        r.wf(),
    ensures
        wf_json(json_of_release(r)),
{
    lemma_dec_of(r.id);
    lemma_wf_items_of_assets(r.assets);
    let m0 = ("id"@, JsonV::Num(dec_of(r.id)));
    let m1 = ("tag_name"@, JsonV::Str(r.tag_name));
    let m2 = ("assets"@, JsonV::Arr(jsons_of_assets(r.assets)));
    let ms = seq![m0, m1, m2];
    assert(wf_members(Seq::<(Seq<char>, JsonV)>::empty()));
    lemma_wf_members_cons(m2, Seq::<(Seq<char>, JsonV)>::empty());
    assert(seq![m2] + Seq::<(Seq<char>, JsonV)>::empty() =~= seq![m2]);
    lemma_wf_members_cons(m1, seq![m2]);
    assert(seq![m1] + seq![m2] =~= seq![m1, m2]);
    lemma_wf_members_cons(m0, seq![m1, m2]);
    assert(seq![m0] + seq![m1, m2] =~= ms);
    assert(wf_members(ms));
}

/// Round trip: for any well-formed release value, decoding the canonical
/// rendering yields exactly that value: every field equal, asset order
/// included.
pub proof fn lemma_round_trip(r: ReleaseV)
    requires
        r.wf(),
    ensures
        spec_decode_release(spec_render_release(r)) == Ok::<ReleaseV, crate::decode::DecodeError>(
            r,
        ),
{
    lemma_wf_json_of_release(r);
    lemma_parse_render_doc(json_of_release(r));
    lemma_release_of_json(r);
}

} // verus!
