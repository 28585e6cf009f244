//! Fetching metadata about the latest published release of a hosted project.
//!
//! The library holds the verified core: the release data model, the request
//! URL construction, and the decoder that turns an HTTP response body into a
//! `Release` value.  The network call itself lives outside the library.

use vstd::prelude::*;

pub mod decode;
pub mod json;
pub mod laws;
pub mod model;
pub mod render;
pub mod roundtrip;
pub mod url_check;

pub use decode::{decode_release, decode_response, DecodeError, FetchError};
pub use model::{Asset, Release};
pub use render::render_release;

verus! {

/// The fixed scheme-and-host prefix of the release-distribution API.
pub open spec fn spec_api_prefix() -> Seq<char> {
    "https://api.github.com/repos/"@
}

/// The request path for the latest release of `owner`'s repository `repo`:
/// `https://api.github.com/repos/<owner>/<repo>/releases/latest`.
pub open spec fn spec_latest_release_url(owner: Seq<char>, repo: Seq<char>) -> Seq<char> {
    spec_api_prefix() + owner + "/"@ + repo + "/releases/latest"@
}

/// Builds the URL the fetch operation sends its GET request to.  The caller's
/// identifiers are substituted verbatim: no escaping or validation happens
/// here.
pub fn latest_release_url(owner: &str, repo: &str) -> (r: String)
    ensures
        r@ == spec_latest_release_url(owner@, repo@),
{
    let mut out = String::from_str("https://api.github.com/repos/");
    out.append(owner);
    out.append("/");
    out.append(repo);
    out.append("/releases/latest");
    proof {
        assert(out@ =~= spec_latest_release_url(owner@, repo@));
    }
    out
}

/// The fixed, non-empty client identifier sent as the `User-Agent` header,
/// required by the hosting API's usage policy.
pub fn client_user_agent() -> (r: &'static str)
    ensures
        r@ == "pgpad"@,
        r@.len() > 0,
{
    proof {
        reveal_strlit("pgpad");
    }
    "pgpad"
}

} // verus!
