//! The URLs of trackers.
use vstd::prelude::*;
use vstd::string::*;

verus! {

/// A URL, taken apart.
#[derive(Debug, Clone)]
pub struct TrackerUrl {
    /// The URL itself.
    pub text: String,
    pub scheme: String,
    pub host: Option<String>,
    /// The port, where it is not that of the scheme.
    pub port: Option<u16>,
    /// The port, or else that of the scheme, where it has one.
    pub known_port: Option<u16>,
    pub path: String,
    pub query: Option<String>,
}

/// What a [`TrackerUrl`] says.
pub struct UrlModel {
    pub text: Seq<char>,
    pub scheme: Seq<char>,
    pub host: Option<Seq<char>>,
    pub port: Option<u16>,
    pub known_port: Option<u16>,
    pub path: Seq<char>,
    pub query: Option<Seq<char>>,
}

/// The text, if there is one.
pub open spec fn text_of(s: Option<String>) -> Option<Seq<char>> {
    match s {
        Some(t) => Some(t@),
        None => None,
    }
}

impl View for TrackerUrl {
    type V = UrlModel;

    open spec fn view(&self) -> UrlModel {
        UrlModel {
            text: self.text@,
            scheme: self.scheme@,
            host: text_of(self.host),
            port: self.port,
            known_port: self.known_port,
            path: self.path@,
            query: text_of(self.query),
        }
    }
}

/// A URL, or why a text is none.
pub open spec fn url_model(r: Result<TrackerUrl, String>) -> Result<UrlModel, Seq<char>> {
    match r {
        Ok(url) => Ok(url@),
        Err(e) => Err(e@),
    }
}

/// The port that a scheme has.
pub open spec fn scheme_port(scheme: Seq<char>) -> Option<u16> {
    if scheme == "http"@ || scheme == "ws"@ {
        Some(80u16)
    } else if scheme == "https"@ || scheme == "wss"@ {
        Some(443u16)
    } else if scheme == "ftp"@ {
        Some(21u16)
    } else {
        None
    }
}

/// The URL that a text denotes, or why it denotes none.
pub uninterp spec fn parsed_url(text: Seq<char>) -> Result<UrlModel, Seq<char>>;

/// The URL that a reference denotes relative to a base, or why it denotes none.
pub uninterp spec fn joined_url(base: Seq<char>, reference: Seq<char>) -> Result<
    UrlModel,
    Seq<char>,
>;

/// The URL that a text denotes, by `url::Url::parse`: what it returns, read by
/// the accessors of `url::Url`, is a function of the text alone. Where the URL
/// names no port, the known one is that of its scheme.
#[verifier::external_body]
pub(crate) fn parse_url(text: &str) -> (out: Result<TrackerUrl, String>)
    ensures
        url_model(out) == parsed_url(text@),
        out matches Ok(url) ==> url@.known_port == match url@.port {
            Some(port) => Some(port),
            None => scheme_port(url@.scheme),
        },
{
    match url::Url::parse(text) {
        Ok(u) => Ok(TrackerUrl {
            text: u.as_str().to_string(),
            scheme: u.scheme().to_string(),
            host: u.host_str().map(str::to_string),
            port: u.port(),
            known_port: u.port_or_known_default(),
            path: u.path().to_string(),
            query: u.query().map(str::to_string),
        }),
        Err(e) => Err(e.to_string()),
    }
}

/// The URL that a reference denotes relative to a base, by `url::Url::join` on
/// what `url::Url::parse` makes of the base: what comes back, read by the
/// accessors of `url::Url`, is a function of the two texts alone. Where the URL
/// names no port, the known one is that of its scheme.
#[verifier::external_body]
pub(crate) fn join_url(base: &str, reference: &str) -> (out: Result<TrackerUrl, String>)
    ensures
        url_model(out) == joined_url(base@, reference@),
        out matches Ok(url) ==> url@.known_port == match url@.port {
            Some(port) => Some(port),
            None => scheme_port(url@.scheme),
        },
{
    match url::Url::parse(base).and_then(|b| b.join(reference)) {
        Ok(u) => Ok(TrackerUrl {
            text: u.as_str().to_string(),
            scheme: u.scheme().to_string(),
            host: u.host_str().map(str::to_string),
            port: u.port(),
            known_port: u.port_or_known_default(),
            path: u.path().to_string(),
            query: u.query().map(str::to_string),
        }),
        Err(e) => Err(e.to_string()),
    }
}

} // verus!
