//! Trusted boundary to the `http` crate's header map.
//!
//! The map itself is opaque to verification; the one call the parsing
//! logic needs — reading the `Set-Cookie` values out of a response's
//! headers — is wrapped here, and everything done with the values is
//! verified in [`crate::http::set_cookie`].

use vstd::prelude::*;

verus! {

#[verifier::external_type_specification]
#[verifier::external_body]
#[verifier::reject_recursive_types(T)]
pub struct ExHeaderMap<T>(http::HeaderMap<T>);

#[verifier::external_type_specification]
#[verifier::external_body]
pub struct ExHeaderValue(http::HeaderValue);

/// Relies on `http::HeaderMap::get`, and `http::HeaderValue::to_str`:
/// hands back the request's `Cookie` value when one is present and
/// visible ASCII.
#[verifier::external_body]
pub fn cookie_header_value(headers: &http::HeaderMap) -> (r: Option<String>) {
    headers.get(http::header::COOKIE).and_then(|v| v.to_str().ok()).map(|s| s.to_owned())
}

/// Relies on `http::HeaderMap::get_all`, `GetAll::iter` and
/// `http::HeaderValue::to_str`: hands back the response's `Set-Cookie`
/// values that are visible ASCII, as owned strings, in the map's
/// iteration order. Which values come back, and in which order, depends
/// on the map, so nothing more is promised of the result.
#[verifier::external_body]
pub fn set_cookie_header_values(headers: &http::HeaderMap) -> (r: Vec<String>) {
    headers.get_all(http::header::SET_COOKIE).iter().filter_map(|v| v.to_str().ok()).map(
        |s| s.to_owned(),
    ).collect()
}

} // verus!
