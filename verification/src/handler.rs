//! The handler of virtual hosts: it finds the handler that is to answer a request by the
//! host and the path of the request.

use crate::aliases::Aliases;
use crate::configuration::{
    aliases_of, bytes_of, conf_converted, conf_fails, default_of, host_aliases, hosts_convert,
    ignored_defaults, lemma_converted_converts, lemma_subdirs_weight_grows,
    lemma_weight_converted, lemma_weight_grows, routes_of,
    subdir_routes, subdirs_weight, weight_of, SubDirCombined, VirtualHostCombined,
    VirtualHostConf, VirtualHostsConf,
};
use crate::label::{is_segment, is_token, SEPARATOR};
use crate::router::{route, route_label, route_segments, Router, RouterBuilder};
use crate::segments::{law_tail_is_suffix, lemma_tail_start, segments_of, tail_after};
use crate::trie::lookup::{hit, law_longest_match_wins};
use crate::uri::{
    chars_of, host_from_uri, host_with_port, path_and_query_of, path_with_query, rewrites,
    set_uri_path, RequestUri,
};
use crate::trie::Tally;
use vstd::prelude::*;
use vstd::std_specs::convert::TryIntoSpec;
use vstd::utf8::{
    decode_utf8, decode_utf8_split, encode_utf8, encode_utf8_decode_utf8, encode_utf8_valid_utf8,
    is_ascii_chars, is_ascii_chars_encode_utf8, is_char_boundary,
    is_char_boundary_iff_not_is_continuation_byte, is_char_boundary_start_end_of_seq, valid_utf8,
    valid_utf8_split,
};

verus! {

/// What keeps a handler of virtual hosts from being set up
#[derive(Debug, Clone, PartialEq, Eq)]
pub enum ConfigError {
    /// A host name is empty or holds a slash. The name comes with it.
    InvalidHost(String),
    /// The configuration is too large for its sizes to be counted.
    TooLarge,
}

/// The path that a handler is to see in place of the path of the request: the tail of the
/// path behind the subdirectory, or a single slash where nothing follows it.
pub open spec fn stripped(tail: Seq<u8>) -> Seq<u8> {
    if tail.len() == 0 {
        seq![SEPARATOR]
    } else {
        tail
    }
}

/// The handler that `routes` holds for a host and a path, and the path that the handler is
/// to see in place of the path of the request, where that is another one: the handler
/// for the host and the most segments that the path begins with, and the tail of the
/// path where the route strips what comes before it.
pub open spec fn matched<H>(routes: Map<Seq<u8>, (bool, H)>, host: Seq<u8>, path: Seq<u8>) -> Option<
    (H, Option<Seq<u8>>),
> {
    match route(routes, host, path) {
        Some(((strip_prefix, handler), tail)) => Some(
            (
                handler,
                if strip_prefix {
                    Some(stripped(tail))
                } else {
                    None
                },
            ),
        ),
        None => None,
    }
}

/// The handler for a request to the given host, if the request names one, and path: the
/// one for the host itself; else the one for the host that the given one is an alias of;
/// else the one for the default host. With it comes the path that the handler is to see.
pub open spec fn resolved<H>(
    routes: Map<Seq<u8>, (bool, H)>,
    aliases: Map<Seq<u8>, Seq<u8>>,
    default: Option<Seq<u8>>,
    host: Option<Seq<u8>>,
    path: Seq<u8>,
) -> Option<(H, Option<Seq<u8>>)> {
    let named = match host {
        Some(host) => match matched(routes, host, path) {
            Some(found) => Some(found),
            None => if aliases.contains_key(host) {
                matched(routes, aliases[host], path)
            } else {
                None
            },
        },
        None => None,
    };
    match named {
        Some(found) => Some(found),
        None => match default {
            Some(default) => matched(routes, default, path),
            None => None,
        },
    }
}

/// The host that a request names: the one of its host header, or else the one of its URI.
pub open spec fn requested_host(header: Option<Seq<char>>, uri: RequestUri) -> Option<Seq<char>> {
    match header {
        Some(host) => Some(host),
        None => host_with_port(chars_of(uri.host), chars_of(uri.port)),
    }
}

/// The bytes of a text that may be missing.
pub open spec fn encoded(text: Option<Seq<char>>) -> Option<Seq<u8>> {
    match text {
        Some(text) => Some(encode_utf8(text)),
        None => None,
    }
}

/// The bytes of a path that may be missing.
pub open spec fn path_bytes(path: Option<Vec<u8>>) -> Option<Seq<u8>> {
    match path {
        Some(path) => Some(path@),
        None => None,
    }
}

/// Handler for the request filter phase: it hands a request on to the handler of the
/// virtual host, and of the subdirectory, that the request belongs to.
pub struct VirtualHostsHandler<H> {
    handlers: Router<(bool, H)>,
    aliases: Aliases,
    default: Option<Vec<u8>>,
}

impl<H> VirtualHostsHandler<H> {
    #[verifier::type_invariant]
    closed spec fn wf(self) -> bool {
        self.aliases.wf()
    }

    /// The routes: the hosts and paths that there is a handler for, by their labels, each
    /// with its handler and the flag that tells whether the path is to be stripped.
    pub closed spec fn routes(self) -> Map<Seq<u8>, (bool, H)> {
        self.handlers@
    }

    /// The aliases, each with the host that it stands for.
    pub closed spec fn aliases(self) -> Map<Seq<u8>, Seq<u8>> {
        self.aliases@
    }

    /// The default host, if there is one.
    pub closed spec fn default_host(self) -> Option<Seq<u8>> {
        path_bytes(self.default)
    }

    /// Finds the handler for a host and a path: the one for this very host and the most
    /// segments that the path begins with. Where the route strips the prefix the path
    /// that the handler is to see comes with it: what follows the matched segments, or a
    /// single slash where nothing follows them.
    pub fn best_match<'a>(&'a self, host: &[u8], path: &[u8]) -> (result: Option<
        (&'a H, Option<Vec<u8>>),
    >)
        ensures
            match result {
                Some((handler, new_path)) => matched(self.routes(), host@, path@) == Some(
                    (*handler, path_bytes(new_path)),
                ),
                None => matched(self.routes(), host@, path@) is None,
            },
    {
        match self.handlers.lookup(host, path) {
            Some(((strip_prefix, handler), tail)) => {
                if *strip_prefix {
                    let mut new_path: Vec<u8> = Vec::new();
                    match tail {
                        Some(tail) => {
                            new_path.extend_from_slice(tail);
                        },
                        None => {
                            new_path.push(SEPARATOR);
                        },
                    }
                    proof {
                        assert(new_path@ =~= stripped(crate::router::tail_bytes(tail)));
                    }
                    Some((handler, Some(new_path)))
                } else {
                    Some((handler, None))
                }
            },
            None => None,
        }
    }

    /// Finds the handler for a request to the given host, if the request names one, and
    /// path: the one for the host itself; else the one for the host that the given one is
    /// an alias of; else the one for the default host.
    pub fn find_handler<'a>(&'a self, host: Option<&[u8]>, path: &[u8]) -> (result: Option<
        (&'a H, Option<Vec<u8>>),
    >)
        ensures
            match result {
                Some((handler, new_path)) => resolved(
                    self.routes(),
                    self.aliases(),
                    self.default_host(),
                    match host {
                        Some(host) => Some(host@),
                        None => None,
                    },
                    path@,
                ) == Some((*handler, path_bytes(new_path))),
                None => resolved(
                    self.routes(),
                    self.aliases(),
                    self.default_host(),
                    match host {
                        Some(host) => Some(host@),
                        None => None,
                    },
                    path@,
                ) is None,
            },
    {
        proof {
            use_type_invariant(self);
        }
        let named = match host {
            Some(host) => match self.best_match(host, path) {
                Some(found) => Some(found),
                None => match self.aliases.get(host) {
                    Some(alias) => self.best_match(alias.as_slice(), path),
                    None => None,
                },
            },
            None => None,
        };
        match named {
            Some(found) => Some(found),
            None => match &self.default {
                Some(default) => self.best_match(default.as_slice(), path),
                None => None,
            },
        }
    }

    /// Decides where a request goes: the handler for the host that the request names, by
    /// its host header or else by its URI, and for the path of its URI. Where the route
    /// strips the prefix the URI that the handler is to see comes with it: the URI of the
    /// request with the new path, and with its query as before.
    pub fn route_request<'a>(&'a self, header_host: Option<&str>, uri: &RequestUri) -> (result:
        Option<(&'a H, Option<RequestUri>)>)
        ensures
            match resolved(
                self.routes(),
                self.aliases(),
                self.default_host(),
                encoded(requested_host(chars_of_str(header_host), *uri)),
                encode_utf8(uri.path@),
            ) {
                Some((handler, new_path)) => result matches Some((found, new_uri)) && *found
                    == handler && match new_path {
                    Some(path) => new_uri matches Some(rewritten) && is_stripped_text(
                        uri.path@,
                        decode_utf8(path),
                    ) && rewrites(
                        *uri,
                        path_and_query_of(
                            path_with_query(decode_utf8(path), chars_of(uri.query)),
                        ),
                        rewritten,
                    ),
                    None => new_uri is None,
                },
                None => result is None,
            },
    {
        proof {
            law_resolved_path_text(
                self.routes(),
                self.aliases(),
                self.default_host(),
                encoded(requested_host(chars_of_str(header_host), *uri)),
                uri.path@,
            );
        }
        let host: Option<String> = match header_host {
            Some(host) => Some(host.to_owned()),
            None => host_from_uri(uri),
        };
        let path = uri.path.as_str().as_bytes();
        let found = match &host {
            Some(host) => self.find_handler(Some(host.as_str().as_bytes()), path),
            None => self.find_handler(None, path),
        };
        match found {
            Some((handler, new_path)) => {
                let new_uri = match new_path {
                    Some(new_path) => Some(set_uri_path(uri, new_path.as_slice())),
                    None => None,
                };
                Some((handler, new_uri))
            },
            None => None,
        }
    }
}

/// Whether the name of every host is a segment: not empty, and free of slashes.
pub open spec fn hosts_valid<H>(vhosts: Seq<(String, VirtualHostCombined<H>)>) -> bool {
    forall|i: int| 0 <= i < vhosts.len() ==> is_segment(bytes_of((#[trigger] vhosts[i]).0))
}

/// The bytes of a name.
fn name_bytes(name: &String) -> (bytes: Vec<u8>)
    ensures
        bytes@ == bytes_of(*name),
{
    let mut bytes: Vec<u8> = Vec::new();
    bytes.extend_from_slice(name.as_str().as_bytes());
    bytes
}

impl<H> VirtualHostsHandler<H> {
    /// Sets up a handler of virtual hosts from the handlers for the hosts and their
    /// subdirectories.
    ///
    /// For each host its handler answers to the host itself, whatever the path, without
    /// stripping anything; the handler of each subdirectory answers to the path of the
    /// subdirectory and below. The aliases of the host stand for it. The first host that
    /// is marked as default is the default host: the names of those that are marked so
    /// after it are added to `diagnostics`, and the marks are ignored.
    ///
    /// This fails where a host name is no segment, before anything is set up, and where
    /// the configuration is too large, which it is not as long as its weight can be
    /// counted.
    pub fn from_handlers(conf: VirtualHostsConf<H>, diagnostics: &mut Vec<String>) -> (result:
        Result<Self, ConfigError>)
        ensures
            match result {
                Ok(handler) => handler.set_up(
                    conf.vhosts@,
                    old(diagnostics)@,
                    final(diagnostics)@,
                ),
                Err(ConfigError::InvalidHost(name)) => exists|i: int|
                    0 <= i < conf.vhosts@.len() && (#[trigger] conf.vhosts@[i]).0 == name
                        && !is_segment(bytes_of(name)),
                Err(ConfigError::TooLarge) => hosts_valid(conf.vhosts@) && weight_of(
                    conf.vhosts@,
                    conf.vhosts@.len(),
                ) > usize::MAX,
            },
            !hosts_valid(conf.vhosts@) ==> result matches Err(ConfigError::InvalidHost(_)),
            result is Err ==> final(diagnostics)@.len() >= old(diagnostics)@.len(),
    {
        let mut handlers: RouterBuilder<(bool, H)> = Router::builder();
        let mut aliases = Aliases::new();
        let mut default: Option<Vec<u8>> = None;
        let ghost vhosts = conf.vhosts@;
        let ghost noted = diagnostics@;
        let mut position: usize = 0;
        let total = conf.vhosts.len();
        proof {
            assert(diagnostics@ =~= noted + ignored_defaults(vhosts, 0));
        }
        // Hosts that are no segments are found before anything is set up.
        while position < total
            invariant
                position <= total,
                total == vhosts.len(),
                vhosts == conf.vhosts@,
                forall|i: int| 0 <= i < position ==> is_segment(bytes_of((#[trigger] vhosts[i]).0)),
            decreases total - position,
        {
            if !is_token(conf.vhosts[position].0.as_str().as_bytes()) {
                return Err(ConfigError::InvalidHost(conf.vhosts[position].0.clone()));
            }
            position += 1;
        }

        for entry in hosts: conf.vhosts
            invariant
                hosts.seq() == vhosts,
                vhosts == conf.vhosts@,
                hosts_valid(vhosts),
                handlers.wf(),
                aliases.wf(),
                noted == old(diagnostics)@,
                handlers@ == routes_of(vhosts, hosts.index() as nat),
                aliases@ == aliases_of(vhosts, hosts.index() as nat),
                path_bytes(default) == default_of(vhosts, hosts.index() as nat),
                diagnostics@ == noted + ignored_defaults(vhosts, hosts.index() as nat),
                handlers.tally(Tally::Nodes) <= 1 + weight_of(vhosts, hosts.index() as nat),
                handlers.tally(Tally::LabelBytes) <= weight_of(vhosts, hosts.index() as nat),
                handlers.tally(Tally::Values) <= weight_of(vhosts, hosts.index() as nat),
        {
            let ghost done = hosts.index() as nat;
            let ghost started = diagnostics@;
            proof {
                assert(entry == vhosts[done as int]);
                lemma_weight_grows(vhosts, done + 1, vhosts.len());
            }
            let (name, combined) = entry;
            let VirtualHostCombined { host: settings, config } = combined;
            let VirtualHostConf { aliases: names, default: is_default, subdirs } = settings;
            let host = name_bytes(&name);

            let ghost others = aliases@;
            for alias in list: names
                invariant
                    list.seq() == names@,
                    aliases.wf(),
                    host@ == bytes_of(name),
                    aliases@ == host_aliases(others, host@, names@, list.index() as nat),
            {
                let alias_bytes = name_bytes(&alias);
                aliases.insert(alias_bytes, name_bytes(&name));
            }

            if is_default {
                if default.is_some() {
                    diagnostics.push(name.clone());
                } else {
                    default = Some(name_bytes(&name));
                }
            }
            proof {
                assert(diagnostics@ =~= noted + ignored_defaults(vhosts, done + 1));
                RouterBuilder::<(bool, H)>::lemma_label_length(host@, Seq::empty());
                lemma_subdirs_weight_grows(host@.len(), subdirs@, 0, subdirs@.len());
            }

            let empty: Vec<u8> = Vec::new();
            if handlers.try_push(host.as_slice(), empty.as_slice(), (false, config)).is_none() {
                return Err(ConfigError::TooLarge);
            }

            let ghost own = handlers@;
            let ghost base = weight_of(vhosts, done) + host@.len() + 3;
            for subdir in list: subdirs
                invariant
                    list.seq() == subdirs@,
                    handlers.wf(),
                    is_segment(host@),
                    host@ == bytes_of(name),
                    hosts_valid(vhosts),
                    vhosts == conf.vhosts@,
                    noted == old(diagnostics)@,
                    diagnostics@.len() >= noted.len(),
                    handlers@ == subdir_routes(own, host@, subdirs@, list.index() as nat),
                    base + subdirs_weight(host@.len(), subdirs@, subdirs@.len()) == weight_of(
                        vhosts,
                        done + 1,
                    ),
                    weight_of(vhosts, done + 1) <= weight_of(vhosts, vhosts.len()),
                    handlers.tally(Tally::Nodes) <= 1 + base + subdirs_weight(
                        host@.len(),
                        subdirs@,
                        list.index() as nat,
                    ),
                    handlers.tally(Tally::LabelBytes) <= base + subdirs_weight(
                        host@.len(),
                        subdirs@,
                        list.index() as nat,
                    ),
                    handlers.tally(Tally::Values) <= base + subdirs_weight(
                        host@.len(),
                        subdirs@,
                        list.index() as nat,
                    ),
            {
                let ghost at = list.index() as nat;
                proof {
                    assert(subdir == subdirs@[at as int]);
                    lemma_subdirs_weight_grows(host@.len(), subdirs@, at + 1, subdirs@.len());
                }
                let (path, conf) = subdir;
                let SubDirCombined { subdir: settings, config } = conf;
                proof {
                    RouterBuilder::<(bool, H)>::lemma_label_length(host@, bytes_of(path));
                }
                if handlers.try_push(
                    host.as_slice(),
                    path.as_str().as_bytes(),
                    (settings.strip_prefix, config),
                ).is_none() {
                    return Err(ConfigError::TooLarge);
                }
            }
        }
        let handlers = handlers.build();

        Ok(Self { handlers, aliases, default })
    }

    /// Whether the handler is the one set up from the given hosts, and `after` are the
    /// diagnostics `before` with those of the setting up added to them.
    pub open spec fn set_up(
        self,
        vhosts: Seq<(String, VirtualHostCombined<H>)>,
        before: Seq<String>,
        after: Seq<String>,
    ) -> bool {
        &&& hosts_valid(vhosts)
        &&& self.routes() == routes_of(vhosts, vhosts.len())
        &&& self.aliases() == aliases_of(vhosts, vhosts.len())
        &&& self.default_host() == default_of(vhosts, vhosts.len())
        &&& after == before + ignored_defaults(vhosts, vhosts.len())
    }

    /// Sets up a handler of virtual hosts from the configuration of the hosts, after
    /// converting the configuration of every handler into the handler.
    ///
    /// This fails where a conversion fails, with its error and before anything else is
    /// done, and where setting up from the handlers fails.
    pub fn try_from<C: TryInto<H>>(conf: VirtualHostsConf<C>, diagnostics: &mut Vec<String>) -> (result:
        Result<Self, SetupError<C::Error>>)
        ensures
            match result {
                Ok(handler) => exists|converted: VirtualHostsConf<H>| #[trigger]
                    conf_converted(conf, converted) && handler.set_up(
                        converted.vhosts@,
                        old(diagnostics)@,
                        final(diagnostics)@,
                    ),
                Err(SetupError::Conversion(error)) => final(diagnostics)@ == old(diagnostics)@ && (
                C::obeys_try_into_spec() ==> conf_fails::<C, H>(conf, error)),
                Err(SetupError::Config(ConfigError::InvalidHost(name))) => (exists|i: int|
                    0 <= i < conf.vhosts@.len() && (#[trigger] conf.vhosts@[i]).0 == name
                        && !is_segment(bytes_of(name))) && (C::obeys_try_into_spec()
                    ==> hosts_convert::<C, H>(conf.vhosts@, conf.vhosts@.len() as int)),
                Err(SetupError::Config(ConfigError::TooLarge)) => weight_of(
                    conf.vhosts@,
                    conf.vhosts@.len(),
                ) > usize::MAX && (C::obeys_try_into_spec() ==> hosts_convert::<C, H>(
                    conf.vhosts@,
                    conf.vhosts@.len() as int,
                )),
            },
    {
        let converted: VirtualHostsConf<H> = match conf.convert() {
            Ok(converted) => converted,
            Err(error) => {
                return Err(SetupError::Conversion(error));
            },
        };
        match Self::from_handlers(converted, diagnostics) {
            Ok(handler) => Ok(handler),
            Err(error) => {
                proof {
                    lemma_weight_converted(conf, converted, conf.vhosts@.len());
                    if C::obeys_try_into_spec() {
                        lemma_converted_converts(conf, converted);
                    }
                    if error is InvalidHost {
                        let name = error->InvalidHost_0;
                        let i = choose|i: int|
                            0 <= i < converted.vhosts@.len() && (#[trigger] converted.vhosts@[i]).0
                                == name && !is_segment(bytes_of(name));
                        assert(conf.vhosts@[i].0 == name);
                    }
                }
                Err(SetupError::Config(error))
            },
        }
    }
}

/// What keeps a handler of virtual hosts from being set up from a configuration
#[derive(Debug, Clone, PartialEq, Eq)]
pub enum SetupError<E> {
    /// The configuration of a handler does not convert into a handler. The error of the
    /// conversion comes with it.
    Conversion(E),
    /// The handlers cannot be set up.
    Config(ConfigError),
}

/// Whether `text` is the text of a path that a handler gets to see in place of `path`: the
/// end of `path`, from a slash on, or a single slash.
pub open spec fn is_stripped_text(path: Seq<char>, text: Seq<char>) -> bool {
    ||| text == seq!['/']
    ||| exists|from: int| 0 <= from <= path.len() && #[trigger] path.skip(from) == text
}

/// The tail of a path that is text is text: the end of the text of the path.
pub proof fn law_tail_text(path: Seq<char>, count: nat)
    ensures
        valid_utf8(tail_after(encode_utf8(path), count)),
        exists|from: int|
            0 <= from <= path.len() && #[trigger] path.skip(from) == decode_utf8(
                tail_after(encode_utf8(path), count),
            ),
{
    let bytes = encode_utf8(path);
    let tail = tail_after(bytes, count);
    let at = bytes.len() - tail.len();
    encode_utf8_valid_utf8(path);
    encode_utf8_decode_utf8(path);
    law_tail_is_suffix(bytes, count);
    is_char_boundary_start_end_of_seq(bytes);
    if count > 0 && tail.len() > 0 {
        lemma_tail_start(bytes, count);
        assert(bytes[at] == tail[0]);
        is_char_boundary_iff_not_is_continuation_byte(bytes, at);
    } else if count == 0 {
        assert(at == 0);
    }
    assert(is_char_boundary(bytes, at));
    valid_utf8_split(bytes, at);
    decode_utf8_split(bytes, at);
    assert(bytes.subrange(at, bytes.len() as int) =~= tail);
    let front = decode_utf8(bytes.subrange(0, at));
    assert(path.skip(front.len() as int) =~= decode_utf8(tail));
}

/// The path that a handler gets to see for a request whose path is text is text: the end
/// of the path of the request, or a single slash.
pub proof fn law_new_path_text<H>(routes: Map<Seq<u8>, (bool, H)>, host: Seq<u8>, path: Seq<char>)
    ensures
        matched(routes, host, encode_utf8(path)) matches Some((_, Some(new_path)))
            ==> valid_utf8(new_path) && is_stripped_text(path, decode_utf8(new_path)),
{
    if let Some((handler, Some(new_path))) = matched(routes, host, encode_utf8(path)) {
        let (entry, tail) = route(routes, host, encode_utf8(path))->0;
        let count = crate::trie::lookup::best_count(
            routes,
            route_segments(host, encode_utf8(path)),
        )->0;
        law_tail_text(path, (count - 1) as nat);
        if tail.len() == 0 {
            let slash = seq!['/'];
            assert(is_ascii_chars(slash));
            is_ascii_chars_encode_utf8(slash);
            assert(encode_utf8(slash) =~= seq![SEPARATOR]);
            encode_utf8_valid_utf8(slash);
            encode_utf8_decode_utf8(slash);
        }
    }
}

/// The path that the handler for a request gets to see, where the path of the request is
/// text, is text: the end of the path of the request, or a single slash.
pub proof fn law_resolved_path_text<H>(
    routes: Map<Seq<u8>, (bool, H)>,
    aliases: Map<Seq<u8>, Seq<u8>>,
    default: Option<Seq<u8>>,
    host: Option<Seq<u8>>,
    path: Seq<char>,
)
    ensures
        resolved(routes, aliases, default, host, encode_utf8(path)) matches Some(
            (_, Some(new_path)),
        ) ==> valid_utf8(new_path) && is_stripped_text(path, decode_utf8(new_path)),
{
    if let Some(name) = host {
        law_new_path_text(routes, name, path);
        if aliases.contains_key(name) {
            law_new_path_text(routes, aliases[name], path);
        }
    }
    if let Some(name) = default {
        law_new_path_text(routes, name, path);
    }
}

/// A host match takes precedence: where there is a handler for the host that a request
/// names, and the path, this is the handler for the request, whatever the aliases and
/// the default host are.
pub proof fn law_host_precedence<H>(
    routes: Map<Seq<u8>, (bool, H)>,
    aliases: Map<Seq<u8>, Seq<u8>>,
    default: Option<Seq<u8>>,
    host: Seq<u8>,
    path: Seq<u8>,
)
    requires
        matched(routes, host, path) is Some,
    ensures
        resolved(routes, aliases, default, Some(host), path) == matched(routes, host, path),
{
}

/// A request for a registered host never falls through: where a handler was set up for a
/// host, the request for this host and any path goes to a handler of this very host.
pub proof fn law_registered_host<H>(
    routes: Map<Seq<u8>, (bool, H)>,
    aliases: Map<Seq<u8>, Seq<u8>>,
    default: Option<Seq<u8>>,
    host: Seq<u8>,
    path: Seq<u8>,
)
    requires
        is_segment(host),
        routes.contains_key(route_label(host, Seq::empty())),
    ensures
        matched(routes, host, path) is Some,
        resolved(routes, aliases, default, Some(host), path) == matched(routes, host, path),
{
    let segments = route_segments(host, path);
    let alone = route_segments(host, Seq::empty());
    assert(segments_of(Seq::<u8>::empty()) =~= Seq::<Seq<u8>>::empty());
    assert(alone =~= seq![host]);
    assert(segments.take(1) =~= seq![host]);
    assert(hit(routes, segments, 1));
    law_longest_match_wins(routes, segments, 1);
}

/// Alias resolution: where there is no handler for the host that a request names, and
/// the host is an alias, the handler for the request is the one for the host that the
/// alias stands for, if there is one.
pub proof fn law_alias_resolution<H>(
    routes: Map<Seq<u8>, (bool, H)>,
    aliases: Map<Seq<u8>, Seq<u8>>,
    default: Option<Seq<u8>>,
    host: Seq<u8>,
    path: Seq<u8>,
)
    requires
        matched(routes, host, path) is None,
        aliases.contains_key(host),
        matched(routes, aliases[host], path) is Some,
    ensures
        resolved(routes, aliases, default, Some(host), path) == matched(
            routes,
            aliases[host],
            path,
        ),
{
}

/// Default fallback: where there is a handler neither for the host that a request names
/// nor for a host that it is an alias of, or where the request names no host, the
/// handler for the request is the one for the default host; without a default host there
/// is none.
pub proof fn law_default_fallback<H>(
    routes: Map<Seq<u8>, (bool, H)>,
    aliases: Map<Seq<u8>, Seq<u8>>,
    default: Option<Seq<u8>>,
    host: Option<Seq<u8>>,
    path: Seq<u8>,
)
    requires
        host matches Some(name) ==> matched(routes, name, path) is None && (aliases.contains_key(
            name,
        ) ==> matched(routes, aliases[name], path) is None),
    ensures
        resolved(routes, aliases, default, host, path) == (match default {
            Some(default) => matched(routes, default, path),
            None => None,
        }),
{
}

/// The characters of a text slice that may be missing.
pub open spec fn chars_of_str(text: Option<&str>) -> Option<Seq<char>> {
    match text {
        Some(text) => Some(text@),
        None => None,
    }
}

} // verus!
