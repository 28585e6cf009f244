//! Decoding a JSON document into a `Release`.
//!
//! The decode consumes the fields `id`, `tag_name` and `assets` of the top
//! object, and `url`, `browser_download_url`, `id`, `name`, `size` of each
//! asset object; unknown fields are ignored, a required field that is absent,
//! repeated, or of the wrong shape fails the whole decode, and URL fields
//! must be well-formed.  `spec_decode_release` is the exact mathematical
//! statement of the whole operation; `decode_release` implements it.

use vstd::prelude::*;

use crate::json::{
    is_digit, digit_val, jms, jvs, lemma_jms_index, lemma_jms_len, lemma_jvs_index, lemma_jvs_len,
    parse_doc, spec_parse_doc, Json, JsonV,
};
use crate::model::{Asset, AssetV, Release, ReleaseV};
use crate::url_check::{check_url, url_ok};

verus! {

/// Why a decode failed.
#[derive(Clone, Copy, Debug, PartialEq, Eq, Structural)]
pub enum DecodeError {
    /// The body is not a well-formed JSON document.
    Syntax,
    /// A required field is absent.
    MissingField,
    /// A consumed field occurs twice.
    DuplicateField,
    /// A consumed field, or the document itself, has the wrong shape.
    WrongType,
    /// A numeric field does not fit its integer type.
    NumberRange,
    /// A URL field is present but not a syntactically valid URL.
    BadUrl,
}

/// Why a fetch failed.
#[derive(Clone, Copy, Debug, PartialEq, Eq, Structural)]
pub enum FetchError {
    /// The response carried a non-success HTTP status.
    Status(u16),
    /// The response body did not decode.
    Decode(DecodeError),
}

/// The value of a digit string, most significant digit first.
pub open spec fn digits_val(t: Seq<char>) -> int
    decreases t.len(),
{
    if t.len() == 0 {
        0
    } else {
        digits_val(t.drop_last()) * 10 + digit_val(t.last())
    }
}

/// Every character is a decimal digit.
pub open spec fn all_digits(t: Seq<char>) -> bool {
    forall|k: int| 0 <= k < t.len() ==> is_digit(#[trigger] t[k])
}

/// The non-negative integer a number literal denotes, if it is a plain
/// digit string.
pub open spec fn spec_uint_of(t: Seq<char>) -> Option<int> {
    if t.len() > 0 && all_digits(t) {
        Some(digits_val(t))
    } else {
        None
    }
}

/// The integer a number literal denotes, if it is a plain digit string with
/// an optional leading minus sign.
pub open spec fn spec_int_of(t: Seq<char>) -> Option<int> {
    if t.len() > 0 && t[0] == '-' {
        match spec_uint_of(t.drop_first()) {
            Some(v) => Some(-v),
            None => None,
        }
    } else {
        spec_uint_of(t)
    }
}

/// A digit string has a non-negative value.
pub proof fn lemma_digits_val_nonneg(t: Seq<char>)
    requires
        all_digits(t),
    ensures
        digits_val(t) >= 0,
    decreases t.len(),
{
    if t.len() > 0 {
        assert(all_digits(t.drop_last()));
        lemma_digits_val_nonneg(t.drop_last());
    }
}

/// Extending a digit string never decreases its value.
pub proof fn lemma_digits_val_prefix(t: Seq<char>, m: int)
    requires
        0 <= m <= t.len(),
        all_digits(t),
    ensures
        digits_val(t.take(m)) <= digits_val(t),
    decreases t.len() - m,
{
    if m == t.len() {
        assert(t.take(m) =~= t);
    } else {
        assert(t.take(m + 1).drop_last() =~= t.take(m));
        assert(t.take(m + 1).last() == t[m]);
        assert(all_digits(t.take(m)));
        lemma_digits_val_nonneg(t.take(m));
        assert(digits_val(t.take(m + 1)) == digits_val(t.take(m)) * 10 + digit_val(t[m]));
        assert(digits_val(t.take(m)) * 10 >= digits_val(t.take(m))) by (nonlinear_arith)
            requires
                digits_val(t.take(m)) >= 0,
        ;
        lemma_digits_val_prefix(t, m + 1);
    }
}

/// Fields of an asset object gathered while walking its members.
pub struct AssetAcc {
    pub url: Option<Seq<char>>,
    pub browser_download_url: Option<Seq<char>>,
    pub id: Option<int>,
    pub name: Option<Seq<char>>,
    pub size: Option<int>,
}

/// The starting state of an asset walk: nothing seen yet.
pub open spec fn asset_acc_init() -> AssetAcc {
    AssetAcc { url: None, browser_download_url: None, id: None, name: None, size: None }
}

/// Walks the members of an asset object in order, gathering the consumed
/// fields and ignoring unknown ones.
pub open spec fn walk_asset(ms: Seq<(Seq<char>, JsonV)>, st: AssetAcc) -> Result<
    AssetAcc,
    DecodeError,
>
    decreases ms.len(),
{
    if ms.len() == 0 {
        Ok(st)
    } else {
        let k = ms[0].0;
        let v = ms[0].1;
        if k == "url"@ {
            if st.url is Some {
                Err(DecodeError::DuplicateField)
            } else {
                match v {
                    JsonV::Str(t) => if url_ok(t) {
                        walk_asset(ms.drop_first(), AssetAcc { url: Some(t), ..st })
                    } else {
                        Err(DecodeError::BadUrl)
                    },
                    _ => Err(DecodeError::WrongType),
                }
            }
        } else if k == "browser_download_url"@ {
            if st.browser_download_url is Some {
                Err(DecodeError::DuplicateField)
            } else {
                match v {
                    JsonV::Str(t) => if url_ok(t) {
                        walk_asset(ms.drop_first(), AssetAcc { browser_download_url: Some(t), ..st })
                    } else {
                        Err(DecodeError::BadUrl)
                    },
                    _ => Err(DecodeError::WrongType),
                }
            }
        } else if k == "id"@ {
            if st.id is Some {
                Err(DecodeError::DuplicateField)
            } else {
                match v {
                    JsonV::Num(t) => match spec_uint_of(t) {
                        Some(x) => if x <= usize::MAX {
                            walk_asset(ms.drop_first(), AssetAcc { id: Some(x), ..st })
                        } else {
                            Err(DecodeError::NumberRange)
                        },
                        None => Err(DecodeError::WrongType),
                    },
                    _ => Err(DecodeError::WrongType),
                }
            }
        } else if k == "name"@ {
            if st.name is Some {
                Err(DecodeError::DuplicateField)
            } else {
                match v {
                    JsonV::Str(t) => walk_asset(ms.drop_first(), AssetAcc { name: Some(t), ..st }),
                    _ => Err(DecodeError::WrongType),
                }
            }
        } else if k == "size"@ {
            if st.size is Some {
                Err(DecodeError::DuplicateField)
            } else {
                match v {
                    JsonV::Num(t) => match spec_int_of(t) {
                        Some(x) => if i64::MIN <= x <= i64::MAX {
                            walk_asset(ms.drop_first(), AssetAcc { size: Some(x), ..st })
                        } else {
                            Err(DecodeError::NumberRange)
                        },
                        None => Err(DecodeError::WrongType),
                    },
                    _ => Err(DecodeError::WrongType),
                }
            }
        } else {
            walk_asset(ms.drop_first(), st)
        }
    }
}

/// Decodes one asset from its JSON value: it must be an object holding all
/// five required fields exactly once each.
pub open spec fn spec_asset_of(j: JsonV) -> Result<AssetV, DecodeError> {
    match j {
        JsonV::Obj(ms) => match walk_asset(ms, asset_acc_init()) {
            Ok(st) => if st.url is Some && st.browser_download_url is Some && st.id is Some
                && st.name is Some && st.size is Some {
                Ok(
                    AssetV {
                        url: st.url.unwrap(),
                        browser_download_url: st.browser_download_url.unwrap(),
                        id: st.id.unwrap(),
                        name: st.name.unwrap(),
                        size: st.size.unwrap(),
                    },
                )
            } else {
                Err(DecodeError::MissingField)
            },
            Err(e) => Err(e),
        },
        _ => Err(DecodeError::WrongType),
    }
}

/// Decodes a sequence of assets in order; the first failure fails the whole
/// list.
pub open spec fn spec_assets_of(items: Seq<JsonV>) -> Result<Seq<AssetV>, DecodeError>
    decreases items.len(),
{
    if items.len() == 0 {
        Ok(Seq::empty())
    } else {
        match spec_asset_of(items[0]) {
            Ok(a) => match spec_assets_of(items.drop_first()) {
                Ok(rest) => Ok(seq![a] + rest),
                Err(e) => Err(e),
            },
            Err(e) => Err(e),
        }
    }
}

/// Fields of the release object gathered while walking its members.
pub struct ReleaseAcc {
    pub id: Option<int>,
    pub tag_name: Option<Seq<char>>,
    pub assets: Option<Seq<AssetV>>,
}

/// The starting state of a release walk: nothing seen yet.
pub open spec fn release_acc_init() -> ReleaseAcc {
    ReleaseAcc { id: None, tag_name: None, assets: None }
}

/// Walks the members of the release object in order, gathering the consumed
/// fields and ignoring unknown ones.
pub open spec fn walk_release(ms: Seq<(Seq<char>, JsonV)>, st: ReleaseAcc) -> Result<
    ReleaseAcc,
    DecodeError,
>
    decreases ms.len(),
{
    if ms.len() == 0 {
        Ok(st)
    } else {
        let k = ms[0].0;
        let v = ms[0].1;
        if k == "id"@ {
            if st.id is Some {
                Err(DecodeError::DuplicateField)
            } else {
                match v {
                    JsonV::Num(t) => match spec_uint_of(t) {
                        Some(x) => if x <= usize::MAX {
                            walk_release(ms.drop_first(), ReleaseAcc { id: Some(x), ..st })
                        } else {
                            Err(DecodeError::NumberRange)
                        },
                        None => Err(DecodeError::WrongType),
                    },
                    _ => Err(DecodeError::WrongType),
                }
            }
        } else if k == "tag_name"@ {
            if st.tag_name is Some {
                Err(DecodeError::DuplicateField)
            } else {
                match v {
                    JsonV::Str(t) => walk_release(
                        ms.drop_first(),
                        ReleaseAcc { tag_name: Some(t), ..st },
                    ),
                    _ => Err(DecodeError::WrongType),
                }
            }
        } else if k == "assets"@ {
            if st.assets is Some {
                Err(DecodeError::DuplicateField)
            } else {
                match v {
                    JsonV::Arr(items) => match spec_assets_of(items) {
                        Ok(a) => walk_release(ms.drop_first(), ReleaseAcc { assets: Some(a), ..st }),
                        Err(e) => Err(e),
                    },
                    // A null asset list counts as an empty one.
                    JsonV::Null => walk_release(
                        ms.drop_first(),
                        ReleaseAcc { assets: Some(Seq::empty()), ..st },
                    ),
                    _ => Err(DecodeError::WrongType),
                }
            }
        } else {
            walk_release(ms.drop_first(), st)
        }
    }
}

/// Decodes a release from its JSON value: it must be an object holding
/// `id`, `tag_name` and `assets` exactly once each.
pub open spec fn spec_release_of(j: JsonV) -> Result<ReleaseV, DecodeError> {
    match j {
        JsonV::Obj(ms) => match walk_release(ms, release_acc_init()) {
            Ok(st) => if st.id is Some && st.tag_name is Some && st.assets is Some {
                Ok(
                    ReleaseV {
                        id: st.id.unwrap(),
                        tag_name: st.tag_name.unwrap(),
                        assets: st.assets.unwrap(),
                    },
                )
            } else {
                Err(DecodeError::MissingField)
            },
            Err(e) => Err(e),
        },
        _ => Err(DecodeError::WrongType),
    }
}

/// The whole decode: parse the document, then read the release out of it.
pub open spec fn spec_decode_release(s: Seq<char>) -> Result<ReleaseV, DecodeError> {
    match spec_parse_doc(s) {
        Some(j) => spec_release_of(j),
        None => Err(DecodeError::Syntax),
    }
}

/// Character-wise string comparison.
fn str_eq(a: &str, b: &str) -> (r: bool)
    ensures
        r == (a@ == b@),
{
    let na = a.unicode_len();
    let nb = b.unicode_len();
    if na != nb {
        return false;
    }
    let mut i: usize = 0;
    while i < na
        invariant
            0 <= i <= na,
            na == a@.len() == b@.len(),
            forall|k: int| 0 <= k < i ==> a@[k] == b@[k],
        decreases na - i,
    {
        if s_ne(a.get_char(i), b.get_char(i)) {
            return false;
        }
        i += 1;
    }
    proof {
        assert(a@ =~= b@);
    }
    true
}

/// Character inequality, spelled out so the comparison is on plain values.
#[inline]
fn s_ne(x: char, y: char) -> (r: bool)
    ensures
        r == (x != y),
{
    x != y
}

/// Whether every character from `start` on is a digit, with at least one.
fn digits_from(t: &str, start: usize) -> (r: bool)
    requires
        start <= t@.len(),
    ensures
        r == (t@.len() > start && all_digits(t@.skip(start as int))),
{
    let n = t.unicode_len();
    if n <= start {
        return false;
    }
    let mut i: usize = start;
    while i < n
        invariant
            start <= i <= n,
            n == t@.len(),
            forall|k: int| 0 <= k < i - start ==> is_digit(#[trigger] t@.skip(start as int)[k]),
        decreases n - i,
    {
        let c = t.get_char(i);
        let u = c as u32;
        if !(48 <= u && u <= 57) {
            proof {
                assert(t@.skip(start as int)[i - start] == t@[i as int]);
            }
            return false;
        }
        i += 1;
    }
    true
}

/// Parses the digit string `t[start..]` as a non-negative integer, refusing
/// values above `limit`.
fn parse_mag(t: &str, start: usize, limit: u64) -> (r: Option<u64>)
    requires
        start <= t@.len(),
    ensures
        r is Some <==> {
            &&& t@.len() > start
            &&& all_digits(t@.skip(start as int))
            &&& digits_val(t@.skip(start as int)) <= limit
        },
        r matches Some(v) ==> v as int == digits_val(t@.skip(start as int)) && v <= limit,
{
    let n = t.unicode_len();
    if n <= start {
        return None;
    }
    let ghost whole = t@.skip(start as int);
    let mut acc: u64 = 0;
    let mut i: usize = start;
    proof {
        assert(whole.take(0) =~= Seq::<char>::empty());
    }
    while i < n
        invariant
            start <= i <= n,
            n == t@.len(),
            whole == t@.skip(start as int),
            all_digits(whole.take(i - start)),
            acc as int == digits_val(whole.take(i - start)),
            acc <= limit,
        decreases n - i,
    {
        let c = t.get_char(i);
        let u = c as u32;
        if !(48 <= u && u <= 57) {
            proof {
                assert(whole[i - start] == t@[i as int]);
            }
            return None;
        }
        let d: u64 = (u - 48) as u64;
        proof {
            assert(whole.take(i - start + 1).drop_last() =~= whole.take(i - start));
            assert(whole.take(i - start + 1).last() == t@[i as int]);
            assert(all_digits(whole.take(i - start + 1)));
        }
        if acc > limit / 10 || (acc == limit / 10 && d > limit % 10) {
            proof {
                assert(digits_val(whole.take(i - start + 1)) == acc * 10 + d);
                assert(acc * 10 + d > limit) by (nonlinear_arith)
                    requires
                        acc > limit / 10 || (acc == limit / 10 && d > limit % 10),
                        limit / 10 == (limit as int) / 10,
                        limit % 10 == (limit as int) % 10,
                        acc >= 0,
                        d >= 0,
                ;
                if t@.len() > start && all_digits(whole) {
                    lemma_digits_val_prefix(whole, i - start + 1);
                }
            }
            return None;
        }
        proof {
            assert(acc * 10 + d <= limit) by (nonlinear_arith)
                requires
                    acc <= limit / 10,
                    !(acc == limit / 10 && d > limit % 10),
                    limit / 10 == (limit as int) / 10,
                    limit % 10 == (limit as int) % 10,
                    0 <= acc,
                    0 <= d <= 9,
            ;
        }
        acc = acc * 10 + d;
        i += 1;
    }
    proof {
        assert(whole.take(n - start) =~= whole);
    }
    Some(acc)
}

/// Parses a number literal as an unsigned machine-word identifier.
fn parse_usize_digits(t: &str) -> (r: Option<usize>)
    ensures
        r is Some <==> {
            &&& spec_uint_of(t@) is Some
            &&& spec_uint_of(t@).unwrap() <= usize::MAX
        },
        r matches Some(v) ==> spec_uint_of(t@) == Some(v as int),
{
    proof {
        assert(t@.skip(0) =~= t@);
    }
    match parse_mag(t, 0, usize::MAX as u64) {
        Some(v) => Some(v as usize),
        None => None,
    }
}

/// Parses a number literal as a signed 64-bit byte count.
fn parse_i64_digits(t: &str) -> (r: Option<i64>)
    ensures
        r is Some <==> {
            &&& spec_int_of(t@) is Some
            &&& i64::MIN <= spec_int_of(t@).unwrap() <= i64::MAX
        },
        r matches Some(v) ==> spec_int_of(t@) == Some(v as int),
{
    let n = t.unicode_len();
    if n > 0 && t.get_char(0) == '-' {
        proof {
            assert(t@.skip(1) =~= t@.drop_first());
        }
        match parse_mag(t, 1, 9223372036854775808u64) {
            Some(m) => {
                if m == 9223372036854775808u64 {
                    Some(i64::MIN)
                } else {
                    Some(-(m as i64))
                }
            },
            None => None,
        }
    } else {
        proof {
            assert(t@.skip(0) =~= t@);
        }
        match parse_mag(t, 0, i64::MAX as u64) {
            Some(m) => Some(m as i64),
            None => None,
        }
    }
}

/// Fields of an asset object gathered by the executable walk.
struct AssetBuild {
    url: Option<String>,
    browser_download_url: Option<String>,
    id: Option<usize>,
    name: Option<String>,
    size: Option<i64>,
}

impl View for AssetBuild {
    type V = AssetAcc;

    closed spec fn view(&self) -> AssetAcc {
        AssetAcc {
            url: match self.url {
                Some(u) => Some(u@),
                None => None,
            },
            browser_download_url: match self.browser_download_url {
                Some(u) => Some(u@),
                None => None,
            },
            id: match self.id {
                Some(x) => Some(x as int),
                None => None,
            },
            name: match self.name {
                Some(u) => Some(u@),
                None => None,
            },
            size: match self.size {
                Some(x) => Some(x as int),
                None => None,
            },
        }
    }
}

/// Walks the members of an asset object from position `k` on.
fn asset_walk(ms: &Vec<(String, Json)>, k: usize, st: AssetBuild) -> (r: Result<
    AssetBuild,
    DecodeError,
>)
    requires
        k <= ms@.len(),
    ensures
        match r {
            Ok(st2) => walk_asset(jms(ms@).skip(k as int), st@) == Ok::<AssetAcc, DecodeError>(
                st2@,
            ),
            Err(e) => walk_asset(jms(ms@).skip(k as int), st@) == Err::<AssetAcc, DecodeError>(e),
        },
    decreases ms@.len() - k,
{
    proof {
        lemma_jms_len(ms@);
    }
    if k == ms.len() {
        proof {
            assert(jms(ms@).skip(k as int) =~= Seq::<(Seq<char>, JsonV)>::empty());
        }
        return Ok(st);
    }
    proof {
        lemma_jms_index(ms@, k as int);
        assert(jms(ms@).skip(k as int)[0] == jms(ms@)[k as int]);
        assert(jms(ms@).skip(k as int).drop_first() =~= jms(ms@).skip(k + 1 as int));
    }
    let key = &ms[k].0;
    let v = &ms[k].1;
    if str_eq(key.as_str(), "url") {
        if st.url.is_some() {
            return Err(DecodeError::DuplicateField);
        }
        match v {
            Json::Str(t) => {
                if check_url(t.as_str()) {
                    asset_walk(ms, k + 1, AssetBuild { url: Some(t.clone()), ..st })
                } else {
                    Err(DecodeError::BadUrl)
                }
            },
            _ => Err(DecodeError::WrongType),
        }
    } else if str_eq(key.as_str(), "browser_download_url") {
        if st.browser_download_url.is_some() {
            return Err(DecodeError::DuplicateField);
        }
        match v {
            Json::Str(t) => {
                if check_url(t.as_str()) {
                    asset_walk(ms, k + 1, AssetBuild { browser_download_url: Some(t.clone()), ..st })
                } else {
                    Err(DecodeError::BadUrl)
                }
            },
            _ => Err(DecodeError::WrongType),
        }
    } else if str_eq(key.as_str(), "id") {
        if st.id.is_some() {
            return Err(DecodeError::DuplicateField);
        }
        match v {
            Json::Num(t) => match parse_usize_digits(t.as_str()) {
                Some(x) => asset_walk(ms, k + 1, AssetBuild { id: Some(x), ..st }),
                None => {
                    if digits_from(t.as_str(), 0) {
                        proof {
                            assert(t@.skip(0) =~= t@);
                        }
                        Err(DecodeError::NumberRange)
                    } else {
                        proof {
                            assert(t@.skip(0) =~= t@);
                        }
                        Err(DecodeError::WrongType)
                    }
                },
            },
            _ => Err(DecodeError::WrongType),
        }
    } else if str_eq(key.as_str(), "name") {
        if st.name.is_some() {
            return Err(DecodeError::DuplicateField);
        }
        match v {
            Json::Str(t) => asset_walk(ms, k + 1, AssetBuild { name: Some(t.clone()), ..st }),
            _ => Err(DecodeError::WrongType),
        }
    } else if str_eq(key.as_str(), "size") {
        if st.size.is_some() {
            return Err(DecodeError::DuplicateField);
        }
        match v {
            Json::Num(t) => match parse_i64_digits(t.as_str()) {
                Some(x) => asset_walk(ms, k + 1, AssetBuild { size: Some(x), ..st }),
                None => {
                    if int_shape(t.as_str()) {
                        Err(DecodeError::NumberRange)
                    } else {
                        Err(DecodeError::WrongType)
                    }
                },
            },
            _ => Err(DecodeError::WrongType),
        }
    } else {
        asset_walk(ms, k + 1, st)
    }
}

/// Whether a number literal has the shape of a plain (optionally negative)
/// integer.
fn int_shape(t: &str) -> (r: bool)
    ensures
        r == (spec_int_of(t@) is Some),
{
    let n = t.unicode_len();
    if n > 0 && t.get_char(0) == '-' {
        proof {
            assert(t@.skip(1) =~= t@.drop_first());
        }
        digits_from(t, 1)
    } else {
        proof {
            assert(t@.skip(0) =~= t@);
        }
        digits_from(t, 0)
    }
}

/// Decodes one asset from a parsed JSON value.
fn asset_of(j: &Json) -> (r: Result<Asset, DecodeError>)
    ensures
        match r {
            Ok(a) => spec_asset_of(j.jv()) == Ok::<AssetV, DecodeError>(a@),
            Err(e) => spec_asset_of(j.jv()) == Err::<AssetV, DecodeError>(e),
        },
{
    match j {
        Json::Obj(ms) => {
            proof {
                assert(jms(ms@).skip(0) =~= jms(ms@));
            }
            let st0 = AssetBuild { url: None, browser_download_url: None, id: None, name: None, size: None };
            match asset_walk(ms, 0, st0) {
                Ok(st) => match (st.url, st.browser_download_url, st.id, st.name, st.size) {
                    (Some(u), Some(b), Some(i), Some(nm), Some(sz)) => Ok(
                        Asset { url: u, browser_download_url: b, id: i, name: nm, size: sz },
                    ),
                    _ => Err(DecodeError::MissingField),
                },
                Err(e) => Err(e),
            }
        },
        _ => Err(DecodeError::WrongType),
    }
}

/// Decodes the asset list from position `k` on.
fn assets_from(items: &Vec<Json>, k: usize) -> (r: Result<Vec<Asset>, DecodeError>)
    requires
        k <= items@.len(),
    ensures
        match r {
            Ok(v) => spec_assets_of(jvs(items@).skip(k as int)) == Ok::<Seq<AssetV>, DecodeError>(
                v.deep_view(),
            ),
            Err(e) => spec_assets_of(jvs(items@).skip(k as int)) == Err::<Seq<AssetV>, DecodeError>(
                e,
            ),
        },
    decreases items@.len() - k,
{
    proof {
        lemma_jvs_len(items@);
    }
    if k == items.len() {
        let empty: Vec<Asset> = Vec::new();
        proof {
            assert(jvs(items@).skip(k as int) =~= Seq::<JsonV>::empty());
            assert(empty.deep_view() =~= Seq::<AssetV>::empty());
        }
        return Ok(empty);
    }
    proof {
        lemma_jvs_index(items@, k as int);
        assert(jvs(items@).skip(k as int)[0] == jvs(items@)[k as int]);
        assert(jvs(items@).skip(k as int).drop_first() =~= jvs(items@).skip(k + 1 as int));
    }
    let a = match asset_of(&items[k]) {
        Ok(a) => a,
        Err(e) => {
            return Err(e);
        },
    };
    match assets_from(items, k + 1) {
        Ok(rest) => {
            let ghost old_rest = rest.deep_view();
            let ghost ga = a;
            let mut out = rest;
            out.insert(0, a);
            proof {
                assert(out.deep_view() =~= seq![ga@] + old_rest);
            }
            Ok(out)
        },
        Err(e) => Err(e),
    }
}

/// Fields of the release object gathered by the executable walk.
struct ReleaseBuild {
    id: Option<usize>,
    tag_name: Option<String>,
    assets: Option<Vec<Asset>>,
}

impl View for ReleaseBuild {
    type V = ReleaseAcc;

    closed spec fn view(&self) -> ReleaseAcc {
        ReleaseAcc {
            id: match self.id {
                Some(x) => Some(x as int),
                None => None,
            },
            tag_name: match self.tag_name {
                Some(u) => Some(u@),
                None => None,
            },
            assets: match self.assets {
                Some(v) => Some(v.deep_view()),
                None => None,
            },
        }
    }
}

/// Walks the members of the release object from position `k` on.
fn release_walk(ms: &Vec<(String, Json)>, k: usize, st: ReleaseBuild) -> (r: Result<
    ReleaseBuild,
    DecodeError,
>)
    requires
        k <= ms@.len(),
    ensures
        match r {
            Ok(st2) => walk_release(jms(ms@).skip(k as int), st@) == Ok::<ReleaseAcc, DecodeError>(
                st2@,
            ),
            Err(e) => walk_release(jms(ms@).skip(k as int), st@) == Err::<ReleaseAcc, DecodeError>(
                e,
            ),
        },
    decreases ms@.len() - k,
{
    proof {
        lemma_jms_len(ms@);
    }
    if k == ms.len() {
        proof {
            assert(jms(ms@).skip(k as int) =~= Seq::<(Seq<char>, JsonV)>::empty());
        }
        return Ok(st);
    }
    proof {
        lemma_jms_index(ms@, k as int);
        assert(jms(ms@).skip(k as int)[0] == jms(ms@)[k as int]);
        assert(jms(ms@).skip(k as int).drop_first() =~= jms(ms@).skip(k + 1 as int));
    }
    let key = &ms[k].0;
    let v = &ms[k].1;
    if str_eq(key.as_str(), "id") {
        if st.id.is_some() {
            return Err(DecodeError::DuplicateField);
        }
        match v {
            Json::Num(t) => match parse_usize_digits(t.as_str()) {
                Some(x) => release_walk(ms, k + 1, ReleaseBuild { id: Some(x), ..st }),
                None => {
                    if digits_from(t.as_str(), 0) {
                        proof {
                            assert(t@.skip(0) =~= t@);
                        }
                        Err(DecodeError::NumberRange)
                    } else {
                        proof {
                            assert(t@.skip(0) =~= t@);
                        }
                        Err(DecodeError::WrongType)
                    }
                },
            },
            _ => Err(DecodeError::WrongType),
        }
    } else if str_eq(key.as_str(), "tag_name") {
        if st.tag_name.is_some() {
            return Err(DecodeError::DuplicateField);
        }
        match v {
            Json::Str(t) => release_walk(ms, k + 1, ReleaseBuild { tag_name: Some(t.clone()), ..st }),
            _ => Err(DecodeError::WrongType),
        }
    } else if str_eq(key.as_str(), "assets") {
        if st.assets.is_some() {
            return Err(DecodeError::DuplicateField);
        }
        match v {
            Json::Arr(items) => {
                proof {
                    assert(jvs(items@).skip(0) =~= jvs(items@));
                }
                match assets_from(items, 0) {
                    Ok(a) => release_walk(ms, k + 1, ReleaseBuild { assets: Some(a), ..st }),
                    Err(e) => Err(e),
                }
            },
            Json::Null => {
                let empty: Vec<Asset> = Vec::new();
                proof {
                    assert(empty.deep_view() =~= Seq::<AssetV>::empty());
                }
                release_walk(ms, k + 1, ReleaseBuild { assets: Some(empty), ..st })
            },
            _ => Err(DecodeError::WrongType),
        }
    } else {
        release_walk(ms, k + 1, st)
    }
}

/// Every field gathered so far is valid: URLs well-formed, numbers in
/// range.
pub open spec fn asset_acc_wf(st: AssetAcc) -> bool {
    &&& (st.url is Some ==> url_ok(st.url.unwrap()))
    &&& (st.browser_download_url is Some ==> url_ok(st.browser_download_url.unwrap()))
    &&& (st.id is Some ==> 0 <= st.id.unwrap() <= usize::MAX)
    &&& (st.size is Some ==> i64::MIN <= st.size.unwrap() <= i64::MAX)
}

/// The asset walk only gathers valid fields.
pub proof fn lemma_walk_asset_wf(ms: Seq<(Seq<char>, JsonV)>, st: AssetAcc)
    requires
        asset_acc_wf(st),
    ensures
        walk_asset(ms, st) matches Ok(st2) ==> asset_acc_wf(st2),
    decreases ms.len(),
{
    if ms.len() > 0 {
        let k = ms[0].0;
        let v = ms[0].1;
        if k == "url"@ {
            match v {
                JsonV::Str(t) => if st.url is None && url_ok(t) {
                    lemma_walk_asset_wf(ms.drop_first(), AssetAcc { url: Some(t), ..st });
                },
                _ => {},
            }
        } else if k == "browser_download_url"@ {
            match v {
                JsonV::Str(t) => if st.browser_download_url is None && url_ok(t) {
                    lemma_walk_asset_wf(
                        ms.drop_first(),
                        AssetAcc { browser_download_url: Some(t), ..st },
                    );
                },
                _ => {},
            }
        } else if k == "id"@ {
            match v {
                JsonV::Num(t) => if st.id is None && spec_uint_of(t) is Some {
                    lemma_digits_val_nonneg(t);
                    if spec_uint_of(t).unwrap() <= usize::MAX {
                        lemma_walk_asset_wf(
                            ms.drop_first(),
                            AssetAcc { id: Some(spec_uint_of(t).unwrap()), ..st },
                        );
                    }
                },
                _ => {},
            }
        } else if k == "name"@ {
            match v {
                JsonV::Str(t) => if st.name is None {
                    lemma_walk_asset_wf(ms.drop_first(), AssetAcc { name: Some(t), ..st });
                },
                _ => {},
            }
        } else if k == "size"@ {
            match v {
                JsonV::Num(t) => if st.size is None && spec_int_of(t) is Some && i64::MIN
                    <= spec_int_of(t).unwrap() <= i64::MAX {
                    lemma_walk_asset_wf(
                        ms.drop_first(),
                        AssetAcc { size: Some(spec_int_of(t).unwrap()), ..st },
                    );
                },
                _ => {},
            }
        } else {
            lemma_walk_asset_wf(ms.drop_first(), st);
        }
    }
}

/// A decoded asset is well-formed.
pub proof fn lemma_asset_of_wf(j: JsonV)
    ensures
        spec_asset_of(j) matches Ok(a) ==> a.wf(),
{
    match j {
        JsonV::Obj(ms) => lemma_walk_asset_wf(ms, asset_acc_init()),
        _ => {},
    }
}

/// Every asset of a decoded asset list is well-formed.
pub proof fn lemma_assets_of_wf(items: Seq<JsonV>)
    ensures
        spec_assets_of(items) matches Ok(s) ==> forall|i: int|
            0 <= i < s.len() ==> (#[trigger] s[i]).wf(),
    decreases items.len(),
{
    if items.len() > 0 {
        lemma_asset_of_wf(items[0]);
        lemma_assets_of_wf(items.drop_first());
    }
}

/// The release walk only gathers valid fields.
pub open spec fn release_acc_wf(st: ReleaseAcc) -> bool {
    &&& (st.id is Some ==> 0 <= st.id.unwrap() <= usize::MAX)
    &&& (st.assets is Some ==> forall|i: int|
        0 <= i < st.assets.unwrap().len() ==> (#[trigger] st.assets.unwrap()[i]).wf())
}

/// The release walk only gathers valid fields.
pub proof fn lemma_walk_release_wf(ms: Seq<(Seq<char>, JsonV)>, st: ReleaseAcc)
    requires
        release_acc_wf(st),
    ensures
        walk_release(ms, st) matches Ok(st2) ==> release_acc_wf(st2),
    decreases ms.len(),
{
    if ms.len() > 0 {
        let k = ms[0].0;
        let v = ms[0].1;
        if k == "id"@ {
            match v {
                JsonV::Num(t) => if st.id is None && spec_uint_of(t) is Some {
                    lemma_digits_val_nonneg(t);
                    if spec_uint_of(t).unwrap() <= usize::MAX {
                        lemma_walk_release_wf(
                            ms.drop_first(),
                            ReleaseAcc { id: Some(spec_uint_of(t).unwrap()), ..st },
                        );
                    }
                },
                _ => {},
            }
        } else if k == "tag_name"@ {
            match v {
                JsonV::Str(t) => if st.tag_name is None {
                    lemma_walk_release_wf(
                        ms.drop_first(),
                        ReleaseAcc { tag_name: Some(t), ..st },
                    );
                },
                _ => {},
            }
        } else if k == "assets"@ {
            match v {
                JsonV::Arr(items) => if st.assets is None && spec_assets_of(items) is Ok {
                    lemma_assets_of_wf(items);
                    lemma_walk_release_wf(
                        ms.drop_first(),
                        ReleaseAcc { assets: Some(spec_assets_of(items).unwrap()), ..st },
                    );
                },
                JsonV::Null => if st.assets is None {
                    lemma_walk_release_wf(
                        ms.drop_first(),
                        ReleaseAcc { assets: Some(Seq::empty()), ..st },
                    );
                },
                _ => {},
            }
        } else {
            lemma_walk_release_wf(ms.drop_first(), st);
        }
    }
}

/// A decoded release is well-formed: its identifier is in range and every
/// asset's URLs are valid.
pub proof fn lemma_release_of_wf(j: JsonV)
    ensures
        spec_release_of(j) matches Ok(rv) ==> rv.wf(),
{
    match j {
        JsonV::Obj(ms) => lemma_walk_release_wf(ms, release_acc_init()),
        _ => {},
    }
}

/// Decodes the release from a parsed JSON value.
fn release_of(j: &Json) -> (r: Result<Release, DecodeError>)
    ensures
        match r {
            Ok(rel) => spec_release_of(j.jv()) == Ok::<ReleaseV, DecodeError>(rel@),
            Err(e) => spec_release_of(j.jv()) == Err::<ReleaseV, DecodeError>(e),
        },
{
    match j {
        Json::Obj(ms) => {
            proof {
                assert(jms(ms@).skip(0) =~= jms(ms@));
            }
            let st0 = ReleaseBuild { id: None, tag_name: None, assets: None };
            match release_walk(ms, 0, st0) {
                Ok(st) => match (st.id, st.tag_name, st.assets) {
                    (Some(i), Some(tg), Some(a)) => Ok(Release { id: i, tag_name: tg, assets: a }),
                    _ => Err(DecodeError::MissingField),
                },
                Err(e) => Err(e),
            }
        },
        _ => Err(DecodeError::WrongType),
    }
}

/// Decodes a response body into a `Release`.
///
/// The result is exactly `spec_decode_release` on the body: a success holds
/// a well-formed release whose fields equal the source values in order, and
/// every failure is the error that the decoding rules give for this input.
pub fn decode_release(s: &str) -> (r: Result<Release, DecodeError>)
    ensures
        match r {
            Ok(rel) => spec_decode_release(s@) == Ok::<ReleaseV, DecodeError>(rel@) && rel@.wf(),
            Err(e) => spec_decode_release(s@) == Err::<ReleaseV, DecodeError>(e),
        },
{
    match parse_doc(s) {
        Some(j) => {
            proof {
                lemma_release_of_wf(j.jv());
            }
            release_of(&j)
        },
        None => Err(DecodeError::Syntax),
    }
}

/// Decodes one HTTP exchange: a non-success status fails with that status
/// and no release value; a success status decodes the body.
pub fn decode_response(status: u16, body: &str) -> (r: Result<Release, FetchError>)
    ensures
        !(200 <= status < 300) ==> r == Err::<Release, FetchError>(FetchError::Status(status)),
        200 <= status < 300 ==> match spec_decode_release(body@) {
            Ok(rv) => r matches Ok(rel) && rel@ == rv && rv.wf(),
            Err(e) => r == Err::<Release, FetchError>(FetchError::Decode(e)),
        },
{
    if status < 200 || status >= 300 {
        return Err(FetchError::Status(status));
    }
    match decode_release(body) {
        Ok(rel) => Ok(rel),
        Err(e) => Err(FetchError::Decode(e)),
    }
}

} // verus!
