//! The web tools' argument surface and result-count rules. The HTTP
//! requests, HTML extraction and JSON handling are the caller's.

use vstd::prelude::*;
use vstd::string::StringSliceAdditionalSpecFns;

verus! {

/// The web-search tool: a thin handle over the search API key.
pub struct WebSearchTool {
    pub api_key: Option<String>,
}

impl WebSearchTool {
    pub fn new(api_key: Option<String>) -> (r: Self)
        ensures
            r.api_key == api_key,
    {
        WebSearchTool { api_key }
    }
}

/// Arguments of the web-search tool.
pub struct WebSearchArgs {
    pub query: String,
    pub count: Option<u8>,
}

/// The web-fetch tool.
pub struct WebFetchTool {
}

impl WebFetchTool {
    pub fn new() -> (r: Self) {
        WebFetchTool {  }
    }
}

/// Arguments of the web-fetch tool.
pub struct WebFetchArgs {
    pub url: String,
    pub extract_mode: Option<String>,
    pub max_chars: Option<usize>,
}

/// The result count a search uses: the requested one clamped to `[1, 10]`,
/// five by default.
pub fn clamp_search_count(count: Option<u8>) -> (r: u8)
    ensures
        r as int == vstd::math::min(
            vstd::math::max(
                match count {
                    Some(c) => c as int,
                    None => 5,
                },
                1,
            ),
            10,
        ),
{
    let raw: u8 = match count {
        Some(c) => c,
        None => 5,
    };
    let lo: u8 = if raw < 1 {
        1
    } else {
        raw
    };
    if lo > 10 {
        10
    } else {
        lo
    }
}

/// Only web schemes may be fetched.
pub fn scheme_allowed(scheme: &str) -> (r: bool)
    ensures
        r == (scheme.spec_bytes() == "http".spec_bytes() || scheme.spec_bytes()
            == "https".spec_bytes()),
{
    let b = crate::text::bytes_of(scheme);
    crate::text::bytes_eq(b.as_slice(), crate::text::bytes_of("http").as_slice())
        || crate::text::bytes_eq(b.as_slice(), crate::text::bytes_of("https").as_slice())
}

/// The default byte budget of a fetch.
pub fn default_fetch_max_chars() -> (r: usize)
    ensures
        r == 50000,
{
    50000
}

} // verus!
