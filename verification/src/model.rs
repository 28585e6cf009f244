//! The release data model: plain structured values with structural equality.
//!
//! A `Release` is a tagged publication with an ordered list of downloadable
//! `Asset`s; the order is exactly the order of the wire response.  URL fields
//! are strings whose well-formedness was checked at the decode boundary.

use vstd::prelude::*;

use crate::url_check::url_ok;

verus! {

/// The mathematical model of one downloadable asset.
pub struct AssetV {
    pub url: Seq<char>,
    pub browser_download_url: Seq<char>,
    pub id: int,
    pub name: Seq<char>,
    pub size: int,
}

/// The mathematical model of a release.
pub struct ReleaseV {
    pub id: int,
    pub tag_name: Seq<char>,
    pub assets: Seq<AssetV>,
}

impl AssetV {
    /// Both URL fields are well-formed and the numeric fields are in range.
    pub open spec fn wf(self) -> bool {
        &&& url_ok(self.url)
        &&& url_ok(self.browser_download_url)
        &&& 0 <= self.id <= usize::MAX
        &&& i64::MIN <= self.size <= i64::MAX
    }
}

impl ReleaseV {
    /// The identifier is in range and every asset is well-formed.
    pub open spec fn wf(self) -> bool {
        &&& 0 <= self.id <= usize::MAX
        &&& forall|i: int| 0 <= i < self.assets.len() ==> (#[trigger] self.assets[i]).wf()
    }
}

/// One downloadable file attached to a release.
#[derive(Debug, Clone)]
pub struct Asset {
    /// API URL of this asset's metadata resource.
    pub url: String,
    /// URL the raw asset bytes can be downloaded from.
    pub browser_download_url: String,
    pub id: usize,
    /// File name as published.
    pub name: String,
    /// Byte count; signed 64-bit by the API's numeric convention.
    pub size: i64,
}

/// A tagged release with its downloadable assets, in wire order.
#[derive(Debug, Clone)]
pub struct Release {
    pub id: usize,
    pub tag_name: String,
    pub assets: Vec<Asset>,
}

impl View for Asset {
    type V = AssetV;

    open spec fn view(&self) -> AssetV {
        AssetV {
            url: self.url@,
            browser_download_url: self.browser_download_url@,
            id: self.id as int,
            name: self.name@,
            size: self.size as int,
        }
    }
}

impl DeepView for Asset {
    type V = AssetV;

    open spec fn deep_view(&self) -> AssetV {
        self.view()
    }
}

impl View for Release {
    type V = ReleaseV;

    open spec fn view(&self) -> ReleaseV {
        ReleaseV { id: self.id as int, tag_name: self.tag_name@, assets: self.assets.deep_view() }
    }
}

impl PartialEq for Asset {
    /// Structural equality: all fields equal.
    fn eq(&self, other: &Self) -> (r: bool) {
        self.url == other.url && self.browser_download_url == other.browser_download_url
            && self.id == other.id && self.name == other.name && self.size == other.size
    }
}

impl vstd::std_specs::cmp::PartialEqSpecImpl for Asset {
    open spec fn obeys_eq_spec() -> bool {
        true
    }

    open spec fn eq_spec(&self, other: &Self) -> bool {
        self@ == other@
    }
}

impl PartialEq for Release {
    /// Structural equality: all fields equal, assets pointwise and in order.
    fn eq(&self, other: &Self) -> (r: bool) {
        if self.id != other.id || !(self.tag_name == other.tag_name) {
            return false;
        }
        if self.assets.len() != other.assets.len() {
            proof {
                assert(self.assets.deep_view().len() == self.assets@.len());
                assert(other.assets.deep_view().len() == other.assets@.len());
            }
            return false;
        }
        let n = self.assets.len();
        let mut i: usize = 0;
        while i < n
            invariant
                0 <= i <= n,
                n == self.assets@.len() == other.assets@.len(),
                forall|k: int|
                    0 <= k < i ==> self.assets.deep_view()[k] == other.assets.deep_view()[k],
            decreases n - i,
        {
            if !(self.assets[i] == other.assets[i]) {
                proof {
                    assert(self.assets.deep_view()[i as int] != other.assets.deep_view()[i as int]);
                }
                return false;
            }
            i += 1;
        }
        proof {
            assert(self.assets.deep_view() =~= other.assets.deep_view());
        }
        true
    }
}

impl vstd::std_specs::cmp::PartialEqSpecImpl for Release {
    open spec fn obeys_eq_spec() -> bool {
        true
    }

    open spec fn eq_spec(&self, other: &Self) -> bool {
        self@ == other@
    }
}

/// Two asset values are equal exactly when every field is equal; changing
/// any one field makes them unequal.
pub proof fn lemma_asset_eq_is_fieldwise(a: AssetV, b: AssetV)
    ensures
        (a == b) <==> {
            &&& a.url == b.url
            &&& a.browser_download_url == b.browser_download_url
            &&& a.id == b.id
            &&& a.name == b.name
            &&& a.size == b.size
        },
{
}

/// Two release values are equal exactly when every field is equal,
/// including the asset list pointwise and in order.
pub proof fn lemma_release_eq_is_fieldwise(a: ReleaseV, b: ReleaseV)
    ensures
        (a == b) <==> {
            &&& a.id == b.id
            &&& a.tag_name == b.tag_name
            &&& a.assets == b.assets
        },
{
}

} // verus!
