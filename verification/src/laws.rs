//! Library-wide laws, proved once against the decoding rules.

use vstd::prelude::*;

use crate::decode::{
    release_acc_init, asset_acc_init, spec_asset_of, spec_assets_of, spec_decode_release,
    spec_int_of, spec_release_of, spec_uint_of, walk_asset, walk_release, AssetAcc, ReleaseAcc,
};
use crate::json::{spec_parse_doc, JsonV};
use crate::url_check::url_ok;

verus! {

/// Walking members none of which is named `tag_name` never gathers one.
proof fn lemma_walk_release_no_tag(ms: Seq<(Seq<char>, JsonV)>, st: ReleaseAcc)
    requires
        st.tag_name is None,
        forall|i: int| 0 <= i < ms.len() ==> (#[trigger] ms[i]).0 != "tag_name"@,
    ensures
        walk_release(ms, st) matches Ok(st2) ==> st2.tag_name is None,
    decreases ms.len(),
{
    if ms.len() > 0 {
        let k = ms[0].0;
        let v = ms[0].1;
        assert(ms[0].0 != "tag_name"@);
        assert(forall|i: int|
            0 <= i < ms.drop_first().len() ==> (#[trigger] ms.drop_first()[i]).0 != "tag_name"@);
        if k == "id"@ {
            match v {
                JsonV::Num(t) => if st.id is None && spec_uint_of(t) is Some && spec_uint_of(
                    t,
                ).unwrap() <= usize::MAX {
                    lemma_walk_release_no_tag(
                        ms.drop_first(),
                        ReleaseAcc { id: Some(spec_uint_of(t).unwrap()), ..st },
                    );
                },
                _ => {},
            }
        } else if k == "assets"@ {
            match v {
                JsonV::Arr(items) => if st.assets is None && spec_assets_of(items) is Ok {
                    lemma_walk_release_no_tag(
                        ms.drop_first(),
                        ReleaseAcc { assets: Some(spec_assets_of(items).unwrap()), ..st },
                    );
                },
                JsonV::Null => if st.assets is None {
                    lemma_walk_release_no_tag(
                        ms.drop_first(),
                        ReleaseAcc { assets: Some(Seq::empty()), ..st },
                    );
                },
                _ => {},
            }
        } else {
            lemma_walk_release_no_tag(ms.drop_first(), st);
        }
    }
}

/// Missing-field rejection: a release object none of whose members is named
/// `tag_name` never decodes to a release; the decode fails as a whole.
pub proof fn lemma_missing_tag_name_rejected(ms: Seq<(Seq<char>, JsonV)>)
    requires
        forall|i: int| 0 <= i < ms.len() ==> (#[trigger] ms[i]).0 != "tag_name"@,
    ensures
        spec_release_of(JsonV::Obj(ms)) is Err,
{
    lemma_walk_release_no_tag(ms, release_acc_init());
}

/// Missing-field rejection, stated on whole documents: a document that
/// parses to an object without a `tag_name` member never decodes.
pub proof fn lemma_missing_tag_name_rejected_doc(s: Seq<char>, ms: Seq<(Seq<char>, JsonV)>)
    requires
        spec_parse_doc(s) == Some(JsonV::Obj(ms)),
        forall|i: int| 0 <= i < ms.len() ==> (#[trigger] ms[i]).0 != "tag_name"@,
    ensures
        spec_decode_release(s) is Err,
{
    lemma_missing_tag_name_rejected(ms);
}


/// Walking members none of which is named `id` never gathers one.
proof fn lemma_walk_release_no_id(ms: Seq<(Seq<char>, JsonV)>, st: ReleaseAcc)
    requires
        st.id is None,
        forall|i: int| 0 <= i < ms.len() ==> (#[trigger] ms[i]).0 != "id"@,
    ensures
        walk_release(ms, st) matches Ok(st2) ==> st2.id is None,
    decreases ms.len(),
{
    if ms.len() > 0 {
        let k = ms[0].0;
        let v = ms[0].1;
        assert(ms[0].0 != "id"@);
        assert(forall|i: int|
            0 <= i < ms.drop_first().len() ==> (#[trigger] ms.drop_first()[i]).0 != "id"@);
        if k == "tag_name"@ {
            match v {
                JsonV::Str(t) => if st.tag_name is None {
                    lemma_walk_release_no_id(ms.drop_first(), ReleaseAcc { tag_name: Some(t), ..st });
                },
                _ => {},
            }
        } else if k == "assets"@ {
            match v {
                JsonV::Arr(items) => if st.assets is None && spec_assets_of(items) is Ok {
                    lemma_walk_release_no_id(
                        ms.drop_first(),
                        ReleaseAcc { assets: Some(spec_assets_of(items).unwrap()), ..st },
                    );
                },
                JsonV::Null => if st.assets is None {
                    lemma_walk_release_no_id(
                        ms.drop_first(),
                        ReleaseAcc { assets: Some(Seq::empty()), ..st },
                    );
                },
                _ => {},
            }
        } else {
            lemma_walk_release_no_id(ms.drop_first(), st);
        }
    }
}

/// Walking members none of which is named `assets` never gathers a list.
proof fn lemma_walk_release_no_assets(ms: Seq<(Seq<char>, JsonV)>, st: ReleaseAcc)
    requires
        st.assets is None,
        forall|i: int| 0 <= i < ms.len() ==> (#[trigger] ms[i]).0 != "assets"@,
    ensures
        walk_release(ms, st) matches Ok(st2) ==> st2.assets is None,
    decreases ms.len(),
{
    if ms.len() > 0 {
        let k = ms[0].0;
        let v = ms[0].1;
        assert(ms[0].0 != "assets"@);
        assert(forall|i: int|
            0 <= i < ms.drop_first().len() ==> (#[trigger] ms.drop_first()[i]).0 != "assets"@);
        if k == "id"@ {
            match v {
                JsonV::Num(t) => if st.id is None && spec_uint_of(t) is Some && spec_uint_of(
                    t,
                ).unwrap() <= usize::MAX {
                    lemma_walk_release_no_assets(
                        ms.drop_first(),
                        ReleaseAcc { id: Some(spec_uint_of(t).unwrap()), ..st },
                    );
                },
                _ => {},
            }
        } else if k == "tag_name"@ {
            match v {
                JsonV::Str(t) => if st.tag_name is None {
                    lemma_walk_release_no_assets(
                        ms.drop_first(),
                        ReleaseAcc { tag_name: Some(t), ..st },
                    );
                },
                _ => {},
            }
        } else {
            lemma_walk_release_no_assets(ms.drop_first(), st);
        }
    }
}

/// Missing-field rejection, in full: a release object that lacks any one of
/// its required members (`id`, `tag_name` or `assets`) never decodes to a
/// release; the decode fails as a whole, and no default-valued or partially
/// built value appears.
pub proof fn lemma_missing_required_field_rejected(ms: Seq<(Seq<char>, JsonV)>)
    requires
        (forall|i: int| 0 <= i < ms.len() ==> (#[trigger] ms[i]).0 != "id"@) || (forall|i: int|
            0 <= i < ms.len() ==> (#[trigger] ms[i]).0 != "tag_name"@) || (forall|i: int|
            0 <= i < ms.len() ==> (#[trigger] ms[i]).0 != "assets"@),
    ensures
        spec_release_of(JsonV::Obj(ms)) is Err,
{
    if forall|i: int| 0 <= i < ms.len() ==> (#[trigger] ms[i]).0 != "id"@ {
        lemma_walk_release_no_id(ms, release_acc_init());
    } else if forall|i: int| 0 <= i < ms.len() ==> (#[trigger] ms[i]).0 != "tag_name"@ {
        lemma_walk_release_no_tag(ms, release_acc_init());
    } else {
        lemma_walk_release_no_assets(ms, release_acc_init());
    }
}

/// Missing-field rejection, stated on whole documents: a document that
/// parses to an object lacking any required member never decodes.
pub proof fn lemma_missing_required_field_rejected_doc(s: Seq<char>, ms: Seq<(Seq<char>, JsonV)>)
    requires
        spec_parse_doc(s) == Some(JsonV::Obj(ms)),
        (forall|i: int| 0 <= i < ms.len() ==> (#[trigger] ms[i]).0 != "id"@) || (forall|i: int|
            0 <= i < ms.len() ==> (#[trigger] ms[i]).0 != "tag_name"@) || (forall|i: int|
            0 <= i < ms.len() ==> (#[trigger] ms[i]).0 != "assets"@),
    ensures
        spec_decode_release(s) is Err,
{
    lemma_missing_required_field_rejected(ms);
}


/// Walking release members reaching the first `tag_name` member, whose
/// value is not a string, always fails.
proof fn lemma_walk_release_tag_wrong_type(ms: Seq<(Seq<char>, JsonV)>, st: ReleaseAcc, i: int)
    requires
        0 <= i < ms.len(),
        ms[i].0 == "tag_name"@,
        !(ms[i].1 is Str),
        forall|k: int| 0 <= k < i ==> (#[trigger] ms[k]).0 != "tag_name"@,
    ensures
        walk_release(ms, st) is Err,
    decreases i,
{
    reveal_strlit("id");
    reveal_strlit("tag_name");
    reveal_strlit("assets");
    assert("id"@.len() == 2);
    assert("tag_name"@.len() == 8);
    assert("assets"@.len() == 6);
    let k = ms[0].0;
    let v = ms[0].1;
    if i == 0 {
        assert(k == "tag_name"@);
        assert(k != "id"@);
    } else {
        assert(ms[0].0 != "tag_name"@);
        assert(ms.drop_first()[i - 1] == ms[i]);
        assert(forall|q: int|
            0 <= q < i - 1 ==> (#[trigger] ms.drop_first()[q]).0 != "tag_name"@);
        if k == "id"@ {
            match v {
                JsonV::Num(t) => if st.id is None && spec_uint_of(t) is Some && spec_uint_of(
                    t,
                ).unwrap() <= usize::MAX {
                    lemma_walk_release_tag_wrong_type(
                        ms.drop_first(),
                        ReleaseAcc { id: Some(spec_uint_of(t).unwrap()), ..st },
                        i - 1,
                    );
                },
                _ => {},
            }
        } else if k == "assets"@ {
            match v {
                JsonV::Arr(items) => if st.assets is None && spec_assets_of(items) is Ok {
                    lemma_walk_release_tag_wrong_type(
                        ms.drop_first(),
                        ReleaseAcc { assets: Some(spec_assets_of(items).unwrap()), ..st },
                        i - 1,
                    );
                },
                JsonV::Null => if st.assets is None {
                    lemma_walk_release_tag_wrong_type(
                        ms.drop_first(),
                        ReleaseAcc { assets: Some(Seq::empty()), ..st },
                        i - 1,
                    );
                },
                _ => {},
            }
        } else {
            lemma_walk_release_tag_wrong_type(ms.drop_first(), st, i - 1);
        }
    }
}

/// Wrong-type rejection: a release object whose first `tag_name` member
/// does not hold a string never decodes; no partially built value appears.
pub proof fn lemma_wrong_type_tag_name_rejected(ms: Seq<(Seq<char>, JsonV)>, i: int)
    requires
        0 <= i < ms.len(),
        ms[i].0 == "tag_name"@,
        !(ms[i].1 is Str),
        forall|k: int| 0 <= k < i ==> (#[trigger] ms[k]).0 != "tag_name"@,
    ensures
        spec_release_of(JsonV::Obj(ms)) is Err,
{
    lemma_walk_release_tag_wrong_type(ms, release_acc_init(), i);
}

/// Walking asset members reaching a `browser_download_url` member whose
/// value is a string that is not a well-formed URL always fails.
proof fn lemma_walk_asset_bad_url(
    ms: Seq<(Seq<char>, JsonV)>,
    st: AssetAcc,
    i: int,
    u: Seq<char>,
)
    requires
        0 <= i < ms.len(),
        ms[i] == ("browser_download_url"@, JsonV::Str(u)),
        !url_ok(u),
    ensures
        walk_asset(ms, st) is Err,
    decreases i,
{
    reveal_strlit("browser_download_url");
    reveal_strlit("url");
    reveal_strlit("id");
    reveal_strlit("name");
    reveal_strlit("size");
    let k = ms[0].0;
    let v = ms[0].1;
    if i == 0 {
        assert(k == "browser_download_url"@);
        assert("browser_download_url"@.len() == 20);
        assert("url"@.len() == 3);
        assert(k != "url"@);
    } else {
        assert(ms.drop_first()[i - 1] == ms[i]);
        if k == "url"@ {
            match v {
                JsonV::Str(t) => if st.url is None && url_ok(t) {
                    lemma_walk_asset_bad_url(
                        ms.drop_first(),
                        AssetAcc { url: Some(t), ..st },
                        i - 1,
                        u,
                    );
                },
                _ => {},
            }
        } else if k == "browser_download_url"@ {
            match v {
                JsonV::Str(t) => if st.browser_download_url is None && url_ok(t) {
                    lemma_walk_asset_bad_url(
                        ms.drop_first(),
                        AssetAcc { browser_download_url: Some(t), ..st },
                        i - 1,
                        u,
                    );
                },
                _ => {},
            }
        } else if k == "id"@ {
            match v {
                JsonV::Num(t) => if st.id is None && spec_uint_of(t) is Some && spec_uint_of(
                    t,
                ).unwrap() <= usize::MAX {
                    lemma_walk_asset_bad_url(
                        ms.drop_first(),
                        AssetAcc { id: Some(spec_uint_of(t).unwrap()), ..st },
                        i - 1,
                        u,
                    );
                },
                _ => {},
            }
        } else if k == "name"@ {
            match v {
                JsonV::Str(t) => if st.name is None {
                    lemma_walk_asset_bad_url(
                        ms.drop_first(),
                        AssetAcc { name: Some(t), ..st },
                        i - 1,
                        u,
                    );
                },
                _ => {},
            }
        } else if k == "size"@ {
            match v {
                JsonV::Num(t) => if st.size is None && spec_int_of(t) is Some && i64::MIN
                    <= spec_int_of(t).unwrap() <= i64::MAX {
                    lemma_walk_asset_bad_url(
                        ms.drop_first(),
                        AssetAcc { size: Some(spec_int_of(t).unwrap()), ..st },
                        i - 1,
                        u,
                    );
                },
                _ => {},
            }
        } else {
            lemma_walk_asset_bad_url(ms.drop_first(), st, i - 1, u);
        }
    }
}

/// Malformed-URL rejection at the asset level: an asset object with a
/// `browser_download_url` member that is not a well-formed URL never
/// decodes.
pub proof fn lemma_asset_bad_url_rejected(ms: Seq<(Seq<char>, JsonV)>, i: int, u: Seq<char>)
    requires
        0 <= i < ms.len(),
        ms[i] == ("browser_download_url"@, JsonV::Str(u)),
        !url_ok(u),
    ensures
        spec_asset_of(JsonV::Obj(ms)) is Err,
{
    lemma_walk_asset_bad_url(ms, asset_acc_init(), i, u);
}

/// Malformed-URL rejection at the list level: one bad asset entry fails the
/// whole asset list.
pub proof fn lemma_assets_of_bad_url(
    items: Seq<JsonV>,
    j: int,
    ms: Seq<(Seq<char>, JsonV)>,
    i: int,
    u: Seq<char>,
)
    requires
        0 <= j < items.len(),
        items[j] == JsonV::Obj(ms),
        0 <= i < ms.len(),
        ms[i] == ("browser_download_url"@, JsonV::Str(u)),
        !url_ok(u),
    ensures
        spec_assets_of(items) is Err,
    decreases j,
{
    if j == 0 {
        lemma_asset_bad_url_rejected(ms, i, u);
    } else {
        assert(items.drop_first()[j - 1] == items[j]);
        if spec_asset_of(items[0]) is Ok {
            lemma_assets_of_bad_url(items.drop_first(), j - 1, ms, i, u);
        }
    }
}

/// Walking release members reaching an `assets` member whose list fails
/// always fails.
proof fn lemma_walk_release_bad_assets(
    rms: Seq<(Seq<char>, JsonV)>,
    st: ReleaseAcc,
    j: int,
    items: Seq<JsonV>,
)
    requires
        0 <= j < rms.len(),
        rms[j] == ("assets"@, JsonV::Arr(items)),
        spec_assets_of(items) is Err,
    ensures
        walk_release(rms, st) is Err,
    decreases j,
{
    reveal_strlit("assets");
    reveal_strlit("id");
    reveal_strlit("tag_name");
    let k = rms[0].0;
    let v = rms[0].1;
    if j == 0 {
        assert(k == "assets"@);
        assert("assets"@.len() == 6);
        assert("id"@.len() == 2);
        assert("tag_name"@.len() == 8);
        assert(k != "id"@);
        assert(k != "tag_name"@);
    } else {
        assert(rms.drop_first()[j - 1] == rms[j]);
        if k == "id"@ {
            match v {
                JsonV::Num(t) => if st.id is None && spec_uint_of(t) is Some && spec_uint_of(
                    t,
                ).unwrap() <= usize::MAX {
                    lemma_walk_release_bad_assets(
                        rms.drop_first(),
                        ReleaseAcc { id: Some(spec_uint_of(t).unwrap()), ..st },
                        j - 1,
                        items,
                    );
                },
                _ => {},
            }
        } else if k == "tag_name"@ {
            match v {
                JsonV::Str(t) => if st.tag_name is None {
                    lemma_walk_release_bad_assets(
                        rms.drop_first(),
                        ReleaseAcc { tag_name: Some(t), ..st },
                        j - 1,
                        items,
                    );
                },
                _ => {},
            }
        } else if k == "assets"@ {
            match v {
                JsonV::Arr(other) => if st.assets is None && spec_assets_of(other) is Ok {
                    lemma_walk_release_bad_assets(
                        rms.drop_first(),
                        ReleaseAcc { assets: Some(spec_assets_of(other).unwrap()), ..st },
                        j - 1,
                        items,
                    );
                },
                JsonV::Null => if st.assets is None {
                    lemma_walk_release_bad_assets(
                        rms.drop_first(),
                        ReleaseAcc { assets: Some(Seq::empty()), ..st },
                        j - 1,
                        items,
                    );
                },
                _ => {},
            }
        } else {
            lemma_walk_release_bad_assets(rms.drop_first(), st, j - 1, items);
        }
    }
}

/// Malformed-URL rejection, stated on whole documents: one asset entry
/// whose `browser_download_url` is not a well-formed URL causes the whole
/// decode to fail.
pub proof fn lemma_bad_url_rejected_doc(
    s: Seq<char>,
    rms: Seq<(Seq<char>, JsonV)>,
    aj: int,
    items: Seq<JsonV>,
    j: int,
    ms: Seq<(Seq<char>, JsonV)>,
    i: int,
    u: Seq<char>,
)
    requires
        spec_parse_doc(s) == Some(JsonV::Obj(rms)),
        0 <= aj < rms.len(),
        rms[aj] == ("assets"@, JsonV::Arr(items)),
        0 <= j < items.len(),
        items[j] == JsonV::Obj(ms),
        0 <= i < ms.len(),
        ms[i] == ("browser_download_url"@, JsonV::Str(u)),
        !url_ok(u),
    ensures
        spec_decode_release(s) is Err,
{
    lemma_assets_of_bad_url(items, j, ms, i, u);
    lemma_walk_release_bad_assets(rms, release_acc_init(), aj, items);
}

} // verus!
