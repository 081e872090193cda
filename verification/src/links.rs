//! Web addresses: parsing through the `url` types that `reqwest` re-exports,
//! and the checks that decide which addresses the application trusts.
use vstd::prelude::*;

use crate::text::{chars_equal_str, chars_of, ends_with, ends_with_str, trim, trimmed, string_of};

verus! {

/// The view of an optional string.
pub open spec fn opt_view(o: Option<String>) -> Option<Seq<char>> {
    match o {
        Some(s) => Some(s@),
        None => None,
    }
}

/// What `reqwest::Url::parse` makes of a text: `None` when it rejects it, else
/// the URL's scheme and host (`Url::scheme`, `Url::host_str`).
pub uninterp spec fn parsed_url(text: Seq<char>) -> Option<(Seq<char>, Option<Seq<char>>)>;

/// Calls `reqwest::Url::parse` on `text` and reads `scheme()` and `host_str()`
/// of the result. The outcome is named `parsed_url` of the text; nothing more
/// of the WHATWG parsing rules is stated.
#[verifier::external_body]
fn url_scheme_and_host(text: &str) -> (r: Option<(String, Option<String>)>)
    ensures
        match r {
            Some((scheme, host)) => parsed_url(text@) == Some((scheme@, opt_view(host))),
            None => parsed_url(text@) is None,
        },
{
    match reqwest::Url::parse(text) {
        Ok(url) => Some((url.scheme().to_string(), url.host_str().map(|h| h.to_string()))),
        Err(_) => None,
    }
}

/// The scheme and host of a URL, as `reqwest` parses it.
pub fn scheme_and_host(text: &str) -> (r: Option<(String, Option<String>)>)
    ensures
        match r {
            Some((scheme, host)) => parsed_url(text@) == Some((scheme@, opt_view(host))),
            None => parsed_url(text@) is None,
        },
{
    url_scheme_and_host(text)
}

/// A host of the university domain: `ispace.bnbu.edu.cn` or any name ending
/// in `.bnbu.edu.cn`.
pub open spec fn is_university_host(host: Seq<char>) -> bool {
    host == "ispace.bnbu.edu.cn"@ || ends_with(host, ".bnbu.edu.cn"@)
}

/// Whether `host` is a university host.
pub fn university_host(host: &str) -> (r: bool)
    ensures
        r == is_university_host(host@),
{
    let h = chars_of(host);
    chars_equal_str(&h, "ispace.bnbu.edu.cn") || ends_with_str(&h, ".bnbu.edu.cn")
}

/// The error for an iSpace calendar address that does not parse.
pub open spec fn calendar_url_malformed() -> Seq<char> {
    "iSpace 日历 URL 格式无效"@
}

/// Outcome of checking an iSpace calendar subscription address given by the
/// user: it is trimmed, must parse, use HTTPS and point to a university host.
pub open spec fn calendar_url_check(url: Seq<char>) -> Result<Seq<char>, Seq<char>> {
    match parsed_url(trim(url)) {
        None => Err(calendar_url_malformed()),
        Some((scheme, host)) => if scheme == "https"@ && (host matches Some(h)
            && is_university_host(h)) {
            Ok(trim(url))
        } else {
            Err("请粘贴由 BNBU iSpace 生成的 HTTPS 日历 URL"@)
        },
    }
}

/// Checks an iSpace calendar address before it is stored; gives the trimmed
/// address to store.
pub fn check_ispace_calendar_url(calendar_url: &str) -> (r: Result<String, String>)
    ensures
        match calendar_url_check(calendar_url@) {
            Ok(v) => r matches Ok(s) && s@ == v,
            Err(e) => r matches Err(m) && m@ == e,
        },
{
    let t = trimmed(calendar_url);
    let text = string_of(&t);
    match scheme_and_host(text.as_str()) {
        None => Err(String::from_str("iSpace 日历 URL 格式无效")),
        Some((scheme, host)) => {
            let secure = chars_equal_str(&chars_of(scheme.as_str()), "https");
            let trusted = match &host {
                Some(h) => university_host(h.as_str()),
                None => false,
            };
            if secure && trusted {
                Ok(text)
            } else {
                Err(String::from_str("请粘贴由 BNBU iSpace 生成的 HTTPS 日历 URL"))
            }
        },
    }
}

} // verus!
