//! The canonical rendering of release values as JSON text.
//!
//! `spec_render_release` is the mathematical serializer: it writes a release
//! value as the canonical (whitespace-free) JSON document of the wire
//! schema.  It is the measuring stick for the round-trip law: decoding a
//! rendered release yields the release back.

use vstd::prelude::*;

use crate::json::{is_digit, digit_val, is_ws, JsonV};
use crate::model::{AssetV, ReleaseV};

verus! {

/// The character of one decimal digit.
pub open spec fn digit_char(d: int) -> char {
    if d == 0 {
        '0'
    } else if d == 1 {
        '1'
    } else if d == 2 {
        '2'
    } else if d == 3 {
        '3'
    } else if d == 4 {
        '4'
    } else if d == 5 {
        '5'
    } else if d == 6 {
        '6'
    } else if d == 7 {
        '7'
    } else if d == 8 {
        '8'
    } else {
        '9'
    }
}

/// The canonical decimal rendering of a non-negative integer.
pub open spec fn dec_of(n: int) -> Seq<char>
    decreases n,
{
    if n < 10 {
        seq![digit_char(n)]
    } else {
        dec_of(n / 10).push(digit_char(n % 10))
    }
}

/// The canonical rendering of an integer, with a minus sign if negative.
pub open spec fn int_lit_of(x: int) -> Seq<char> {
    if x < 0 {
        seq!['-'] + dec_of(-x)
    } else {
        dec_of(x)
    }
}

/// The character of one hexadecimal digit.
pub open spec fn hex_digit_char(d: int) -> char {
    if d == 0 {
        '0'
    } else if d == 1 {
        '1'
    } else if d == 2 {
        '2'
    } else if d == 3 {
        '3'
    } else if d == 4 {
        '4'
    } else if d == 5 {
        '5'
    } else if d == 6 {
        '6'
    } else if d == 7 {
        '7'
    } else if d == 8 {
        '8'
    } else if d == 9 {
        '9'
    } else if d == 10 {
        'a'
    } else if d == 11 {
        'b'
    } else if d == 12 {
        'c'
    } else if d == 13 {
        'd'
    } else if d == 14 {
        'e'
    } else {
        'f'
    }
}

/// The rendering of one character inside a string literal: the quote and
/// the backslash get their short escapes, control characters a `\u00XX`
/// escape, and every other character stands as itself.
pub open spec fn esc_char(c: char) -> Seq<char> {
    if c == '"' {
        seq!['\\', '"']
    } else if c == '\\' {
        seq!['\\', '\\']
    } else if (c as u32) < 32 {
        seq!['\\', 'u', '0', '0', hex_digit_char(c as u32 as int / 16), hex_digit_char(
            c as u32 as int % 16,
        )]
    } else {
        seq![c]
    }
}

/// The rendering of a string literal body.
pub open spec fn escape_seq(t: Seq<char>) -> Seq<char>
    decreases t.len(),
{
    if t.len() == 0 {
        Seq::empty()
    } else {
        esc_char(t[0]) + escape_seq(t.drop_first())
    }
}

/// The rendering of a whole string literal, quotes included.
pub open spec fn render_str(t: Seq<char>) -> Seq<char> {
    seq!['"'] + escape_seq(t) + seq!['"']
}

/// The canonical rendering of a JSON value, with no insignificant
/// whitespace.
pub open spec fn spec_render_json(j: JsonV) -> Seq<char>
    decreases j,
{
    match j {
        JsonV::Null => seq!['n', 'u', 'l', 'l'],
        JsonV::Bool(b) => if b {
            seq!['t', 'r', 'u', 'e']
        } else {
            seq!['f', 'a', 'l', 's', 'e']
        },
        JsonV::Num(t) => t,
        JsonV::Str(t) => render_str(t),
        JsonV::Arr(items) => {
            proof {
                assert(decreases_to!(j => items));
            }
            seq!['['] + render_items(items) + seq![']']
        },
        JsonV::Obj(ms) => {
            proof {
                assert(decreases_to!(j => ms));
            }
            seq!['{'] + render_members(ms) + seq!['}']
        },
    }
}

/// The rendering of the elements of an array, comma-separated.
pub open spec fn render_items(items: Seq<JsonV>) -> Seq<char>
    decreases items,
{
    if items.len() == 0 {
        Seq::empty()
    } else {
        proof {
            assert(decreases_to!(items => items[0]));
            assert(decreases_to!(items => items.drop_first()));
        }
        spec_render_json(items[0]) + render_more(items.drop_first())
    }
}

/// The rendering of further array elements, each preceded by a comma.
pub open spec fn render_more(items: Seq<JsonV>) -> Seq<char>
    decreases items,
{
    if items.len() == 0 {
        Seq::empty()
    } else {
        proof {
            assert(decreases_to!(items => items[0]));
            assert(decreases_to!(items => items.drop_first()));
        }
        seq![','] + spec_render_json(items[0]) + render_more(items.drop_first())
    }
}

/// The rendering of one object member.
pub open spec fn render_member(m: (Seq<char>, JsonV)) -> Seq<char>
    decreases m,
{
    proof {
        assert(decreases_to!(m => m.1));
    }
    render_str(m.0) + seq![':'] + spec_render_json(m.1)
}

/// The rendering of the members of an object, comma-separated.
pub open spec fn render_members(ms: Seq<(Seq<char>, JsonV)>) -> Seq<char>
    decreases ms,
{
    if ms.len() == 0 {
        Seq::empty()
    } else {
        proof {
            assert(decreases_to!(ms => ms[0]));
            assert(decreases_to!(ms => ms.drop_first()));
        }
        render_member(ms[0]) + render_more_members(ms.drop_first())
    }
}

/// The rendering of further object members, each preceded by a comma.
pub open spec fn render_more_members(ms: Seq<(Seq<char>, JsonV)>) -> Seq<char>
    decreases ms,
{
    if ms.len() == 0 {
        Seq::empty()
    } else {
        proof {
            assert(decreases_to!(ms => ms[0]));
            assert(decreases_to!(ms => ms.drop_first()));
        }
        seq![','] + render_member(ms[0]) + render_more_members(ms.drop_first())
    }
}

/// The JSON value of one asset, fields in wire order.
pub open spec fn json_of_asset(a: AssetV) -> JsonV {
    JsonV::Obj(
        seq![
            ("url"@, JsonV::Str(a.url)),
            ("browser_download_url"@, JsonV::Str(a.browser_download_url)),
            ("id"@, JsonV::Num(dec_of(a.id))),
            ("name"@, JsonV::Str(a.name)),
            ("size"@, JsonV::Num(int_lit_of(a.size))),
        ],
    )
}

/// The JSON values of an asset list, in order.
pub open spec fn jsons_of_assets(s: Seq<AssetV>) -> Seq<JsonV> {
    Seq::new(s.len(), |i: int| json_of_asset(s[i]))
}

/// The JSON value of a release, fields in wire order.
pub open spec fn json_of_release(r: ReleaseV) -> JsonV {
    JsonV::Obj(
        seq![
            ("id"@, JsonV::Num(dec_of(r.id))),
            ("tag_name"@, JsonV::Str(r.tag_name)),
            ("assets"@, JsonV::Arr(jsons_of_assets(r.assets))),
        ],
    )
}

/// The canonical JSON document of a release value.
pub open spec fn spec_render_release(r: ReleaseV) -> Seq<char> {
    spec_render_json(json_of_release(r))
}

/// A canonical integer literal: an optional minus sign, then digits with no
/// leading zero.
pub open spec fn num_lit_wf(t: Seq<char>) -> bool {
    let d = if t.len() > 0 && t[0] == '-' {
        t.drop_first()
    } else {
        t
    };
    &&& t.len() > 0
    &&& d.len() > 0
    &&& crate::decode::all_digits(d)
    &&& (d.len() > 1 ==> d[0] != '0')
}

/// A JSON value in the canonical form the renderer emits.
pub open spec fn wf_json(j: JsonV) -> bool
    decreases j,
{
    match j {
        JsonV::Null => true,
        JsonV::Bool(_) => true,
        JsonV::Num(t) => num_lit_wf(t),
        JsonV::Str(_) => true,
        JsonV::Arr(items) => {
            proof {
                assert(decreases_to!(j => items));
            }
            wf_items(items)
        },
        JsonV::Obj(ms) => {
            proof {
                assert(decreases_to!(j => ms));
            }
            wf_members(ms)
        },
    }
}

/// Every element is canonical.
pub open spec fn wf_items(items: Seq<JsonV>) -> bool
    decreases items,
{
    if items.len() == 0 {
        true
    } else {
        proof {
            assert(decreases_to!(items => items[0]));
            assert(decreases_to!(items => items.drop_first()));
        }
        wf_json(items[0]) && wf_items(items.drop_first())
    }
}

/// Every value is canonical.
pub open spec fn wf_members(ms: Seq<(Seq<char>, JsonV)>) -> bool
    decreases ms,
{
    if ms.len() == 0 {
        true
    } else {
        proof {
            assert(decreases_to!(ms => ms[0]));
            assert(decreases_to!(ms => ms.drop_first()));
        }
        wf_json(ms[0].1) && wf_members(ms.drop_first())
    }
}

/// The character of one decimal digit.
fn digit_char_x(d: u64) -> (c: char)
    requires
        d < 10,
    ensures
        c == digit_char(d as int),
{
    if d == 0 {
        '0'
    } else if d == 1 {
        '1'
    } else if d == 2 {
        '2'
    } else if d == 3 {
        '3'
    } else if d == 4 {
        '4'
    } else if d == 5 {
        '5'
    } else if d == 6 {
        '6'
    } else if d == 7 {
        '7'
    } else if d == 8 {
        '8'
    } else {
        '9'
    }
}

/// Appends the canonical decimal rendering of `n`.
fn push_dec(out: &mut String, n: u64)
    ensures
        final(out)@ == old(out)@ + dec_of(n as int),
    decreases n,
{
    if n < 10 {
        crate::json::push_char(out, digit_char_x(n));
        proof {
            assert(final(out)@ =~= old(out)@ + dec_of(n as int));
        }
    } else {
        push_dec(out, n / 10);
        crate::json::push_char(out, digit_char_x(n % 10));
        proof {
            assert(n as int / 10 == (n / 10) as int);
            assert(n as int % 10 == (n % 10) as int);
            assert(final(out)@ =~= old(out)@ + dec_of(n as int));
        }
    }
}

/// Appends the canonical rendering of a signed 64-bit integer.
fn push_int(out: &mut String, x: i64)
    ensures
        final(out)@ == old(out)@ + int_lit_of(x as int),
{
    if x < 0 {
        crate::json::push_char(out, '-');
        let mag: u64 = if x == i64::MIN {
            9223372036854775808u64
        } else {
            (-x) as u64
        };
        push_dec(out, mag);
        proof {
            assert(mag as int == -(x as int));
            assert(final(out)@ =~= old(out)@ + (seq!['-'] + dec_of(-(x as int))));
        }
    } else {
        push_dec(out, x as u64);
    }
}

/// Escaping distributes over appending one character.
proof fn lemma_escape_snoc(s: Seq<char>, c: char)
    ensures
        escape_seq(s.push(c)) =~= escape_seq(s) + esc_char(c),
    decreases s.len(),
{
    if s.len() == 0 {
        assert(s.push(c).drop_first() =~= Seq::<char>::empty());
        assert(escape_seq(Seq::<char>::empty()) =~= Seq::<char>::empty());
        assert(s.push(c)[0] == c);
    } else {
        lemma_escape_snoc(s.drop_first(), c);
        assert(s.push(c).drop_first() =~= s.drop_first().push(c));
        assert(s.push(c)[0] == s[0]);
    }
}

/// The character of one hexadecimal digit.
fn hex_digit_char_x(d: u32) -> (c: char)
    requires
        d < 16,
    ensures
        c == hex_digit_char(d as int),
{
    if d == 0 {
        '0'
    } else if d == 1 {
        '1'
    } else if d == 2 {
        '2'
    } else if d == 3 {
        '3'
    } else if d == 4 {
        '4'
    } else if d == 5 {
        '5'
    } else if d == 6 {
        '6'
    } else if d == 7 {
        '7'
    } else if d == 8 {
        '8'
    } else if d == 9 {
        '9'
    } else if d == 10 {
        'a'
    } else if d == 11 {
        'b'
    } else if d == 12 {
        'c'
    } else if d == 13 {
        'd'
    } else if d == 14 {
        'e'
    } else {
        'f'
    }
}

/// Appends a whole string literal: quotes around the escaped text.
fn push_str_lit(out: &mut String, t: &str)
    ensures
        final(out)@ == old(out)@ + render_str(t@),
{
    crate::json::push_char(out, '"');
    let n = t.unicode_len();
    let mut i: usize = 0;
    proof {
        assert(escape_seq(t@.take(0)) =~= Seq::<char>::empty());
    }
    while i < n
        invariant
            0 <= i <= n,
            n == t@.len(),
            out@ == old(out)@ + seq!['"'] + escape_seq(t@.take(i as int)),
        decreases n - i,
    {
        let c = t.get_char(i);
        proof {
            assert(t@.take(i + 1 as int) =~= t@.take(i as int).push(t@[i as int]));
            lemma_escape_snoc(t@.take(i as int), t@[i as int]);
        }
        if c == '"' {
            crate::json::push_char(out, '\\');
            crate::json::push_char(out, '"');
            proof {
                assert(out@ =~= old(out)@ + seq!['"'] + escape_seq(t@.take(i + 1 as int)));
            }
        } else if c == '\\' {
            crate::json::push_char(out, '\\');
            crate::json::push_char(out, '\\');
            proof {
                assert(out@ =~= old(out)@ + seq!['"'] + escape_seq(t@.take(i + 1 as int)));
            }
        } else if (c as u32) < 32 {
            let u = c as u32;
            crate::json::push_char(out, '\\');
            crate::json::push_char(out, 'u');
            crate::json::push_char(out, '0');
            crate::json::push_char(out, '0');
            crate::json::push_char(out, hex_digit_char_x(u / 16));
            crate::json::push_char(out, hex_digit_char_x(u % 16));
            proof {
                assert(out@ =~= old(out)@ + seq!['"'] + escape_seq(t@.take(i + 1 as int)));
            }
        } else {
            crate::json::push_char(out, c);
            proof {
                assert(out@ =~= old(out)@ + seq!['"'] + escape_seq(t@.take(i + 1 as int)));
            }
        }
        i += 1;
    }
    crate::json::push_char(out, '"');
    proof {
        assert(t@.take(n as int) =~= t@);
        assert(final(out)@ =~= old(out)@ + render_str(t@));
    }
}

/// Appends the canonical rendering of one asset object.
#[verifier::rlimit(100)]
fn push_asset(out: &mut String, a: &crate::model::Asset)
    ensures
        final(out)@ == old(out)@ + spec_render_json(json_of_asset(a@)),
{
    crate::json::push_char(out, '{');
    push_str_lit(out, "url");
    crate::json::push_char(out, ':');
    push_str_lit(out, a.url.as_str());
    crate::json::push_char(out, ',');
    push_str_lit(out, "browser_download_url");
    crate::json::push_char(out, ':');
    push_str_lit(out, a.browser_download_url.as_str());
    crate::json::push_char(out, ',');
    push_str_lit(out, "id");
    crate::json::push_char(out, ':');
    push_dec(out, a.id as u64);
    crate::json::push_char(out, ',');
    push_str_lit(out, "name");
    crate::json::push_char(out, ':');
    push_str_lit(out, a.name.as_str());
    crate::json::push_char(out, ',');
    push_str_lit(out, "size");
    crate::json::push_char(out, ':');
    push_int(out, a.size);
    crate::json::push_char(out, '}');
    proof {
        let m0 = ("url"@, JsonV::Str(a.url@));
        let m1 = ("browser_download_url"@, JsonV::Str(a.browser_download_url@));
        let m2 = ("id"@, JsonV::Num(dec_of(a.id as int)));
        let m3 = ("name"@, JsonV::Str(a.name@));
        let m4 = ("size"@, JsonV::Num(int_lit_of(a.size as int)));
        let ms = seq![m0, m1, m2, m3, m4];
        assert(json_of_asset(a@) == JsonV::Obj(ms));
        assert(ms.drop_first() =~= seq![m1, m2, m3, m4]);
        assert(seq![m1, m2, m3, m4].drop_first() =~= seq![m2, m3, m4]);
        assert(seq![m2, m3, m4].drop_first() =~= seq![m3, m4]);
        assert(seq![m3, m4].drop_first() =~= seq![m4]);
        assert(seq![m4].drop_first() =~= Seq::<(Seq<char>, JsonV)>::empty());
        assert(render_more_members(Seq::<(Seq<char>, JsonV)>::empty()) =~= Seq::<char>::empty());
        assert(render_members(ms) == render_member(m0) + render_more_members(
            seq![m1, m2, m3, m4],
        ));
        assert(render_more_members(seq![m1, m2, m3, m4]) == seq![','] + render_member(m1)
            + render_more_members(seq![m2, m3, m4]));
        assert(render_more_members(seq![m2, m3, m4]) == seq![','] + render_member(m2)
            + render_more_members(seq![m3, m4]));
        assert(render_more_members(seq![m3, m4]) == seq![','] + render_member(m3)
            + render_more_members(seq![m4]));
        assert(render_more_members(seq![m4]) == seq![','] + render_member(m4)
            + render_more_members(Seq::<(Seq<char>, JsonV)>::empty()));
        assert(final(out)@ =~= old(out)@ + spec_render_json(json_of_asset(a@)));
    }
}

/// Distributing the comma-joined rendering over appending one value.
proof fn lemma_render_more_snoc(items: Seq<JsonV>, x: JsonV)
    ensures
        render_more(items.push(x)) =~= render_more(items) + seq![','] + spec_render_json(x),
    decreases items.len(),
{
    if items.len() == 0 {
        assert(items.push(x).drop_first() =~= Seq::<JsonV>::empty());
        assert(items.push(x)[0] == x);
        assert(render_more(Seq::<JsonV>::empty()) =~= Seq::<char>::empty());
    } else {
        lemma_render_more_snoc(items.drop_first(), x);
        assert(items.push(x).drop_first() =~= items.drop_first().push(x));
        assert(items.push(x)[0] == items[0]);
    }
}

/// Writes a release value as its canonical JSON document.
#[verifier::rlimit(100)]
pub fn render_release(rel: &crate::model::Release) -> (out: String)
    ensures
        out@ == spec_render_release(rel@),
{
    let mut out = String::new();
    crate::json::push_char(&mut out, '{');
    push_str_lit(&mut out, "id");
    crate::json::push_char(&mut out, ':');
    push_dec(&mut out, rel.id as u64);
    crate::json::push_char(&mut out, ',');
    push_str_lit(&mut out, "tag_name");
    crate::json::push_char(&mut out, ':');
    push_str_lit(&mut out, rel.tag_name.as_str());
    crate::json::push_char(&mut out, ',');
    push_str_lit(&mut out, "assets");
    crate::json::push_char(&mut out, ':');
    crate::json::push_char(&mut out, '[');
    let ghost jitems = jsons_of_assets(rel@.assets);
    let ghost mid = out@;
    let n = rel.assets.len();
    proof {
        assert(jitems.len() == n);
    }
    let mut k: usize = 0;
    while k < n
        invariant
            0 <= k <= n,
            n == rel.assets@.len(),
            jitems == jsons_of_assets(rel@.assets),
            jitems.len() == n,
            k == 0 ==> out@ == mid,
            k > 0 ==> out@ == mid + spec_render_json(jitems[0]) + render_more(
                jitems.subrange(1, k as int),
            ),
        decreases n - k,
    {
        if k > 0 {
            crate::json::push_char(&mut out, ',');
        }
        push_asset(&mut out, &rel.assets[k]);
        proof {
            assert(rel.assets@[k as int]@ == rel@.assets[k as int]);
            assert(jitems[k as int] == json_of_asset(rel@.assets[k as int]));
            if k == 0 {
                assert(out@ =~= mid + spec_render_json(jitems[0]) + render_more(
                    jitems.subrange(1, 1),
                )) by {
                    assert(jitems.subrange(1, 1) =~= Seq::<JsonV>::empty());
                    assert(render_more(Seq::<JsonV>::empty()) =~= Seq::<char>::empty());
                }
            } else {
                lemma_render_more_snoc(jitems.subrange(1, k as int), jitems[k as int]);
                assert(jitems.subrange(1, k + 1 as int) =~= jitems.subrange(1, k as int).push(
                    jitems[k as int],
                ));
                assert(out@ =~= mid + spec_render_json(jitems[0]) + render_more(
                    jitems.subrange(1, k + 1 as int),
                ));
            }
        }
        k += 1;
    }
    crate::json::push_char(&mut out, ']');
    crate::json::push_char(&mut out, '}');
    proof {
        let m0 = ("id"@, JsonV::Num(dec_of(rel@.id)));
        let m1 = ("tag_name"@, JsonV::Str(rel@.tag_name));
        let m2 = ("assets"@, JsonV::Arr(jitems));
        let ms = seq![m0, m1, m2];
        assert(json_of_release(rel@) == JsonV::Obj(ms));
        assert(ms.drop_first() =~= seq![m1, m2]);
        assert(seq![m1, m2].drop_first() =~= seq![m2]);
        assert(seq![m2].drop_first() =~= Seq::<(Seq<char>, JsonV)>::empty());
        assert(render_more_members(Seq::<(Seq<char>, JsonV)>::empty()) =~= Seq::<char>::empty());
        assert(render_members(ms) == render_member(m0) + render_more_members(seq![m1, m2]));
        assert(render_more_members(seq![m1, m2]) == seq![','] + render_member(m1)
            + render_more_members(seq![m2]));
        assert(render_more_members(seq![m2]) == seq![','] + render_member(m2)
            + render_more_members(Seq::<(Seq<char>, JsonV)>::empty()));
        if n == 0 {
            assert(jitems =~= Seq::<JsonV>::empty());
            assert(render_items(jitems) =~= Seq::<char>::empty());
        } else {
            assert(jitems.subrange(1, n as int) =~= jitems.drop_first());
            assert(render_items(jitems) == spec_render_json(jitems[0]) + render_more(
                jitems.drop_first(),
            ));
        }
        assert(out@ =~= spec_render_release(rel@));
    }
    out
}

} // verus!
