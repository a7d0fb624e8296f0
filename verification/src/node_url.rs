//! The URL of the `url` crate, kept together with the text that it was
//! read from.
//!
//! Nothing can be seen inside the URL itself. So a `NodeUrl` carries the
//! text beside it, and only the reader below can make one: whoever holds a
//! `NodeUrl` holds the URL that the `url` crate read from exactly that text.

use vstd::prelude::*;
use url::{ParseError, Url};

verus! {

/// The URL type of the `url` crate. Nothing is known of its inside.
#[verifier::external_type_specification]
#[verifier::external_body]
pub struct ExUrl(url::Url);

/// The error that the `url` crate gives for text that is no URL. Nothing
/// is known of its inside.
#[verifier::external_type_specification]
#[verifier::external_body]
pub struct ExUrlParseError(url::ParseError);

/// Whether `Url::parse` reads the given text as a URL.
pub uninterp spec fn url_accepted(text: Seq<char>) -> bool;

/// The address of a node as a URL, with the text that it was read from.
#[derive(Debug)]
pub struct NodeUrl {
    text: String,
    url: Url,
}

impl View for NodeUrl {
    type V = Seq<char>;

    /// The text that the URL was read from.
    closed spec fn view(&self) -> Seq<char> {
        self.text@
    }
}

/// Calls `Url::parse` of the `url` crate and keeps the URL that comes back
/// together with the text. Whether the call succeeds depends on the text
/// alone; that outcome is named `url_accepted`. Nothing is claimed of the
/// inside of the URL.
#[verifier::external_body]
pub(crate) fn parse_url(text: String) -> (r: Result<NodeUrl, ParseError>)
    ensures
        r is Ok == url_accepted(text@),
        r matches Ok(u) ==> u@ == text@,
{
    match Url::parse(&text) {
        Ok(url) => Ok(NodeUrl { text, url }),
        Err(e) => Err(e),
    }
}

impl NodeUrl {
    /// The text that the URL was read from.
    pub fn text(&self) -> (r: &str)
        ensures
            r@ == self@,
    {
        self.text.as_str()
    }

    /// The URL itself, to hand to a client.
    pub fn into_inner(self) -> Url {
        self.url
    }
}

} // verus!
