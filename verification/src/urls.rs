//! Trusted boundary to the `url` crate: parsing, host detection and
//! RFC 3986 joining. Each result is a function of the argument strings
//! alone, so it is given a name that the callers' contracts build on.

use vstd::prelude::*;

verus! {

/// Whether `s` parses as an absolute URL whose host component is present.
pub uninterp spec fn is_url_with_host(s: Seq<char>) -> bool;

/// Whether `s` parses as a URL at all.
pub uninterp spec fn is_parseable_url(s: Seq<char>) -> bool;

/// The URL obtained by parsing `base` and joining `path` onto it by the
/// RFC 3986 join, rendered back to a string; `None` when `base` does not
/// parse or the join fails.
pub uninterp spec fn url_join(base: Seq<char>, path: Seq<char>) -> Option<Seq<char>>;

/// The path component of the URL that `s` parses to; `None` when `s` does
/// not parse.
pub uninterp spec fn url_path_of(s: Seq<char>) -> Option<Seq<char>>;

/// Relies on `url::Url::parse` and `url::Url::host_str`: whether a string
/// is an absolute URL with a host is a function of its characters alone.
#[verifier::external_body]
pub fn str_has_url_host(s: &str) -> (r: bool)
    ensures
        r == is_url_with_host(s@),
{
    match url::Url::parse(s) {
        Ok(u) => u.host_str().is_some(),
        Err(_) => false,
    }
}

/// Relies on `url::Url::parse`: whether a string is a valid URL is a
/// function of its characters alone.
#[verifier::external_body]
pub fn str_is_parseable_url(s: &str) -> (r: bool)
    ensures
        r == is_parseable_url(s@),
{
    url::Url::parse(s).is_ok()
}

/// Relies on `url::Url::parse` and `url::Url::join`: the join of `path`
/// onto `base` is a function of the two strings alone.
#[verifier::external_body]
pub fn join_url(base: &str, path: &str) -> (r: Option<String>)
    ensures
        r is Some <==> url_join(base@, path@) is Some,
        r is Some ==> r->0@ == url_join(base@, path@)->0,
{
    match url::Url::parse(base) {
        Ok(u) => match u.join(path) {
            Ok(joined) => Some(joined.to_string()),
            Err(_) => None,
        },
        Err(_) => None,
    }
}

/// Relies on `url::Url::parse` and `url::Url::path`: the path component of
/// a URL is a function of its characters alone.
#[verifier::external_body]
pub fn parse_url_path(s: &str) -> (r: Option<String>)
    ensures
        r is Some <==> url_path_of(s@) is Some,
        r is Some ==> r->0@ == url_path_of(s@)->0,
{
    match url::Url::parse(s) {
        Ok(u) => Some(u.path().to_string()),
        Err(_) => None,
    }
}

} // verus!
