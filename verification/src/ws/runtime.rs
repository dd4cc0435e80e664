//! Where the websocket is found.

use vstd::prelude::*;

verus! {

/// The endpoint that the indexer reports to.
pub const WEBSOCKET_ENDPOINT: &'static str = "ws://127.0.0.1:34788/sync";

/// `url::ParseError`, opaque: why a text is not a URL.
#[verifier::external_type_specification]
#[verifier::external_body]
pub struct ExParseError(url::ParseError);

/// What `url::Url::parse` makes of a text: the URL, written out in its normal form, or nothing
/// where the text is not an absolute URL.
pub uninterp spec fn parsed_url(text: Seq<char>) -> Option<Seq<char>>;

/// `url::Url::parse`, with the URL written out by its `Display`. Which texts are URLs, and how
/// they are written out, is not stated.
#[verifier::external_body]
fn parse_url(text: &str) -> (result: Result<String, url::ParseError>)
    ensures
        match result {
            Ok(url) => parsed_url(text@) == Some(url@),
            Err(_) => parsed_url(text@) is None,
        },
{
    url::Url::parse(text).map(|url| url.to_string())
}

/// The URL to connect to for an endpoint.
pub fn websocket_url(endpoint: &str) -> (result: Result<String, url::ParseError>)
    ensures
        match result {
            Ok(url) => parsed_url(endpoint@) == Some(url@),
            Err(_) => parsed_url(endpoint@) is None,
        },
{
    parse_url(endpoint)
}

} // verus!
