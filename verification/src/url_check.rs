//! Validation of URL-typed fields.
//!
//! The release metadata carries two URL fields per asset.  They are kept as
//! strings, and their well-formedness is decided by the `url` crate at the
//! decode boundary, so that malformed values fail fast.

use vstd::prelude::*;

verus! {

/// Whether a string is a syntactically valid absolute URL, as decided by the
/// `url` crate's parser.
pub uninterp spec fn url_ok(s: Seq<char>) -> bool;

/// Relies on `url::Url::parse`: whether a string parses as a URL is a
/// function of the string alone, and the call never panics.
#[verifier::external_body]
pub(crate) fn check_url(s: &str) -> (r: bool)
    ensures
        r == url_ok(s@),
{
    url::Url::parse(s).is_ok()
}

} // verus!
