//! Broker addresses.

use vstd::prelude::*;

verus! {

/// The parts of a broker URL that the agent uses.
#[derive(Clone, Debug, PartialEq)]
pub struct BrokerUrl {
    pub scheme: String,
    pub host: Option<String>,
    pub port: Option<u16>,
}

/// The parts of a broker URL, as text.
pub struct UrlParts {
    pub scheme: Seq<char>,
    pub host: Option<Seq<char>>,
    pub port: Option<u16>,
}

impl View for BrokerUrl {
    type V = UrlParts;

    open spec fn view(&self) -> UrlParts {
        UrlParts {
            scheme: self.scheme@,
            host: match self.host {
                Some(h) => Some(h@),
                None => None,
            },
            port: self.port,
        }
    }
}

/// What the URL parser makes of a text: the parts of the URL, or the message of the error.
pub uninterp spec fn url_parts(text: Seq<char>) -> Result<UrlParts, Seq<char>>;

/// A parse outcome, as text.
pub open spec fn outcome(parsed: Result<BrokerUrl, String>) -> Result<UrlParts, Seq<char>> {
    match parsed {
        Ok(u) => Ok(u@),
        Err(e) => Err(e@),
    }
}

/// Calls `url::Url::parse`, and hands out `scheme`, `host_str` and `port` of the URL, or the
/// text of the error.
///
/// Believed of it: the outcome depends on the text alone. Which texts are URLs, and how they
/// split, is left to the parser.
#[verifier::external_body]
pub(crate) fn parse_url(text: &str) -> (r: Result<BrokerUrl, String>)
    ensures
        outcome(r) == url_parts(text@),
{
    match url::Url::parse(text) {
        Ok(u) => Ok(BrokerUrl {
            scheme: u.scheme().to_string(),
            host: u.host_str().map(|h| h.to_string()),
            port: u.port(),
        }),
        Err(e) => Err(e.to_string()),
    }
}

} // verus!
