//! The request target, as far as routing reads and rewrites it.

use vstd::prelude::*;
use vstd::string::StringExecFns;
use vstd::utf8::{decode_utf8, valid_utf8};

verus! {

/// The parts of a request URI that routing goes by, as plain text. A URI without an
/// authority has neither host nor port.
#[derive(Debug, Clone, PartialEq, Eq)]
pub struct RequestUri {
    /// The scheme, where the URI has one.
    pub scheme: Option<String>,
    /// The authority, where the URI has one: the host with what may stand around it.
    pub authority: Option<String>,
    /// The host of the authority.
    pub host: Option<String>,
    /// The port of the authority, where it names one.
    pub port: Option<String>,
    /// The path.
    pub path: String,
    /// The query, without the question mark before it, where the URI has one.
    pub query: Option<String>,
}

/// The path and the query that the `http` crate reads out of a text, where it takes the
/// text for a path with an optional query.
pub uninterp spec fn path_and_query_of(text: Seq<char>) -> Option<(Seq<char>, Option<Seq<char>>)>;

/// The text that the standard library makes of bytes, with a replacement character for
/// whatever is no UTF-8. Of bytes that are valid UTF-8 it makes the text that they encode.
pub uninterp spec fn lossy_text(bytes: Seq<u8>) -> Seq<char>;

/// The characters of a text that may be missing.
pub open spec fn chars_of(text: Option<String>) -> Option<Seq<char>> {
    match text {
        Some(text) => Some(text@),
        None => None,
    }
}

/// The characters of a path and a query that may be missing.
pub open spec fn parts_of(parsed: Option<(String, Option<String>)>) -> Option<
    (Seq<char>, Option<Seq<char>>),
> {
    match parsed {
        Some((path, query)) => Some((path@, chars_of(query))),
        None => None,
    }
}

/// The host with the port behind a colon, where there is a port; nothing without a host.
pub open spec fn host_with_port(host: Option<Seq<char>>, port: Option<Seq<char>>) -> Option<
    Seq<char>,
> {
    match host {
        Some(host) => Some(
            match port {
                Some(port) => host + seq![':'] + port,
                None => host,
            },
        ),
        None => None,
    }
}

/// A path with the query behind a question mark, where there is a query.
pub open spec fn path_with_query(path: Seq<char>, query: Option<Seq<char>>) -> Seq<char> {
    match query {
        Some(query) => path + seq!['?'] + query,
        None => path,
    }
}

/// Whether a URI can be given a path and a query: one with a scheme and an authority can,
/// and one with neither. A URI with only one of the two cannot be put together with
/// a path.
pub open spec fn takes_path(uri: RequestUri) -> bool {
    (uri.scheme is Some) == (uri.authority is Some)
}

/// Whether `rewritten` is the URI `uri` with the path and the query that were read out of
/// a text: the URI with these two in place of its own, or the URI as it is where nothing
/// was read or where it cannot hold a path.
pub open spec fn rewrites(
    uri: RequestUri,
    parsed: Option<(Seq<char>, Option<Seq<char>>)>,
    rewritten: RequestUri,
) -> bool {
    match parsed {
        Some((path, query)) => if takes_path(uri) {
            &&& rewritten.path@ == path
            &&& chars_of(rewritten.query) == query
            &&& rewritten.scheme == uri.scheme
            &&& rewritten.authority == uri.authority
            &&& rewritten.host == uri.host
            &&& rewritten.port == uri.port
        } else {
            rewritten == uri
        },
        None => rewritten == uri,
    }
}

/// Reads a path with an optional query out of a text, by `str::parse` to the
/// `PathAndQuery` of the `http` crate and by its `path` and `query`. The result is what
/// the crate makes of the text, of which nothing more is claimed.
#[verifier::external_body]
fn parse_path_and_query(text: &str) -> (parsed: Option<(String, Option<String>)>)
    ensures
        parts_of(parsed) == path_and_query_of(text@),
{
    match text.parse::<http::uri::PathAndQuery>() {
        Ok(found) => Some((found.path().to_owned(), found.query().map(str::to_owned))),
        Err(_) => None,
    }
}

/// Makes text of bytes by `String::from_utf8_lossy`. The result is what the standard
/// library makes of the bytes, of which no more is claimed than that bytes that are valid
/// UTF-8 make the text that they encode.
#[verifier::external_body]
fn text_of(bytes: &[u8]) -> (text: String)
    ensures
        text@ == lossy_text(bytes@),
        valid_utf8(bytes@) ==> text@ == decode_utf8(bytes@),
{
    String::from_utf8_lossy(bytes).into_owned()
}

/// A copy of a text that may be missing.
fn copy_of(text: &Option<String>) -> (copy: Option<String>)
    ensures
        copy == *text,
{
    match text {
        Some(text) => Some(text.clone()),
        None => None,
    }
}

impl RequestUri {
    /// A copy of the URI.
    pub fn copy(&self) -> (copy: RequestUri)
        ensures
            copy == *self,
    {
        RequestUri {
            scheme: copy_of(&self.scheme),
            authority: copy_of(&self.authority),
            host: copy_of(&self.host),
            port: copy_of(&self.port),
            path: self.path.clone(),
            query: copy_of(&self.query),
        }
    }
}

/// The host that a request names by its URI: the host of the URI, with the port behind a
/// colon where the URI names one.
pub fn host_from_uri(uri: &RequestUri) -> (host: Option<String>)
    ensures
        chars_of(host) == host_with_port(chars_of(uri.host), chars_of(uri.port)),
{
    let mut host = match &uri.host {
        Some(host) => host.clone(),
        None => {
            return None;
        },
    };
    if let Some(port) = &uri.port {
        proof {
            reveal_strlit(":");
        }
        host.append(":");
        host.append(port.as_str());
        proof {
            assert(":"@ =~= seq![':']);
        }
    }
    Some(host)
}

/// The URI with the path and the query that were read out of a text. The URI stays as it
/// is where nothing could be read out of the text, and where the URI cannot hold a path.
pub fn with_path_and_query(uri: &RequestUri, parsed: Option<(String, Option<String>)>) -> (rewritten:
    RequestUri)
    ensures
        rewritten == (match parsed {
            Some((path, query)) => if takes_path(*uri) {
                RequestUri {
                    scheme: uri.scheme,
                    authority: uri.authority,
                    host: uri.host,
                    port: uri.port,
                    path,
                    query,
                }
            } else {
                *uri
            },
            None => *uri,
        }),
{
    match parsed {
        Some((path, query)) => {
            if uri.scheme.is_some() == uri.authority.is_some() {
                RequestUri {
                    scheme: copy_of(&uri.scheme),
                    authority: copy_of(&uri.authority),
                    host: copy_of(&uri.host),
                    port: copy_of(&uri.port),
                    path,
                    query,
                }
            } else {
                uri.copy()
            }
        },
        None => uri.copy(),
    }
}

/// The text that a URI is given a new path by: the text of the path, and behind it the
/// query of the URI, which stays.
pub fn path_and_query_text(uri: &RequestUri, path: &[u8]) -> (text: String)
    ensures
        text@ == path_with_query(lossy_text(path@), chars_of(uri.query)),
        valid_utf8(path@) ==> lossy_text(path@) == decode_utf8(path@),
{
    let mut text = text_of(path);
    if let Some(query) = &uri.query {
        proof {
            reveal_strlit("?");
        }
        text.append("?");
        text.append(query.as_str());
        proof {
            assert("?"@ =~= seq!['?']);
        }
    }
    text
}

/// The URI with another path: the text of the given bytes. The query stays as it is. Where
/// the new path cannot be read as a path, or the URI cannot hold one, the URI stays
/// unchanged.
pub fn set_uri_path(uri: &RequestUri, path: &[u8]) -> (rewritten: RequestUri)
    ensures
        rewrites(
            *uri,
            path_and_query_of(path_with_query(lossy_text(path@), chars_of(uri.query))),
            rewritten,
        ),
        valid_utf8(path@) ==> lossy_text(path@) == decode_utf8(path@),
{
    let text = path_and_query_text(uri, path);
    let parsed = parse_path_and_query(text.as_str());
    with_path_and_query(uri, parsed)
}

} // verus!
