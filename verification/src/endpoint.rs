//! The endpoint of an embedded datastore that lives in a file.

use vstd::prelude::*;
use vstd::string::StringExecFns;
use crate::err::Error;

verus! {

/// How a connection signs in.
#[derive(Clone, Copy, PartialEq, Eq, Structural, Debug)]
pub enum Level {
    No,
    Root,
    Namespace,
    Database,
}

/// Asks for a datastore that refuses what is not defined.
#[derive(Clone, Copy, PartialEq, Eq, Structural, Debug)]
pub struct Strict;

/// Where a datastore is, and how to open it.
#[derive(Debug)]
pub struct Endpoint {
    /// The URL of the datastore, as the URL parser writes it.
    pub endpoint: String,
    pub strict: bool,
    pub auth: Level,
    pub username: String,
    pub password: String,
}

/// The text that `Url::parse` of the `url` crate makes of `input`: the
/// serialisation of the URL it reads, or nothing where it rejects the input.
pub uninterp spec fn url_parse(input: Seq<char>) -> Option<Seq<char>>;

/// The view of a string that may be missing.
pub open spec fn text_view(s: Option<String>) -> Option<Seq<char>> {
    match s {
        Some(t) => Some(t@),
        None => None,
    }
}

/// Calls `Url::parse` of the `url` crate and hands back the serialisation
/// of the URL, or nothing where the parser rejects the input. Trusted: the
/// result is the parser's, which this crate names `url_parse` and of which
/// it claims nothing more.
#[verifier::external_body]
fn parse_url(input: &str) -> (r: Option<String>)
    ensures
        text_view(r) == url_parse(input@),
{
    url::Url::parse(input).ok().map(String::from)
}

/// The scheme and the slashes that a path is prefixed with.
pub open spec fn scheme_prefix() -> Seq<char> {
    "redb://"@
}

/// Whether `r` is what becomes of the URL text `url` once the parser has
/// answered `parsed`: an endpoint with the parser's text, not strict,
/// without sign-in; or the failure that names the text.
pub open spec fn is_endpoint_of(
    r: Result<Endpoint, Error>,
    url: Seq<char>,
    parsed: Option<Seq<char>>,
) -> bool {
    match parsed {
        Some(p) => r matches Ok(e) && e.endpoint@ == p && !e.strict && e.auth == Level::No
            && e.username@ == Seq::<char>::empty() && e.password@ == Seq::<char>::empty(),
        None => r matches Err(Error::InvalidUrl(u)) && u@ == url,
    }
}

/// Makes the endpoint of the URL text `url`, given what the parser made of it.
pub fn endpoint_of(url: String, parsed: Option<String>) -> (r: Result<Endpoint, Error>)
    ensures
        is_endpoint_of(r, url@, text_view(parsed)),
{
    match parsed {
        Some(endpoint) => Ok(
            Endpoint {
                endpoint,
                strict: false,
                auth: Level::No,
                username: String::new(),
                password: String::new(),
            },
        ),
        None => Err(Error::InvalidUrl(url)),
    }
}

/// What can be turned into the endpoint of a file datastore.
pub trait IntoEndpoint {
    /// Turns this into an endpoint.
    fn into_endpoint(self) -> Result<Endpoint, Error>;
}

impl IntoEndpoint for &str {
    /// The endpoint of the datastore in the file at this path. The path
    /// follows the scheme, and the whole must parse as a URL.
    fn into_endpoint(self) -> (r: Result<Endpoint, Error>)
        ensures
            is_endpoint_of(r, scheme_prefix() + self@, url_parse(scheme_prefix() + self@)),
    {
        let url = String::from_str("redb://").concat(self);
        let parsed = parse_url(url.as_str());
        endpoint_of(url, parsed)
    }
}

impl IntoEndpoint for (&str, Strict) {
    /// The endpoint of the datastore in the file at this path, strict.
    fn into_endpoint(self) -> (r: Result<Endpoint, Error>)
        ensures
            match url_parse(scheme_prefix() + self.0@) {
                Some(p) => r matches Ok(e) && e.endpoint@ == p && e.strict && e.auth == Level::No
                    && e.username@ == Seq::<char>::empty() && e.password@ == Seq::<char>::empty(),
                None => r matches Err(Error::InvalidUrl(u)) && u@ == scheme_prefix() + self.0@,
            },
    {
        let (path, _) = self;
        let mut endpoint = match path.into_endpoint() {
            Ok(endpoint) => endpoint,
            Err(e) => {
                return Err(e);
            },
        };
        endpoint.strict = true;
        Ok(endpoint)
    }
}

} // verus!
