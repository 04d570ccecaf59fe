use vhost_router::configuration::{
    SubDirCombined, SubDirConf, VirtualHostCombined, VirtualHostConf, VirtualHostsConf,
};
use vhost_router::filter::RequestFilterResult;
use vhost_router::handler::{ConfigError, SetupError, VirtualHostsHandler};
use vhost_router::uri::{host_from_uri, set_uri_path, with_path_and_query, RequestUri};

#[derive(Debug, PartialEq)]
struct Handler {
    result: RequestFilterResult,
}

impl TryFrom<RequestFilterResult> for Handler {
    type Error = String;

    fn try_from(result: RequestFilterResult) -> Result<Self, Self::Error> {
        Ok(Self { result })
    }
}

/// What a request looks like to the handler of virtual hosts.
struct Session {
    host: Option<String>,
    uri: RequestUri,
}

impl Session {
    fn uri_text(&self) -> String {
        let mut text = String::new();
        if let Some(scheme) = &self.uri.scheme {
            text.push_str(scheme);
            text.push_str("://");
        }
        if let Some(authority) = &self.uri.authority {
            text.push_str(authority);
        }
        text.push_str(&self.uri.path);
        if let Some(query) = &self.uri.query {
            text.push('?');
            text.push_str(query);
        }
        text
    }
}

fn request_uri(uri: &str) -> RequestUri {
    let uri: http::Uri = uri.parse().unwrap();
    RequestUri {
        scheme: uri.scheme_str().map(|scheme| scheme.to_owned()),
        authority: uri.authority().map(|authority| authority.as_str().to_owned()),
        host: uri.host().map(|host| host.to_owned()),
        port: uri.port().map(|port| port.as_str().to_owned()),
        path: uri.path().to_owned(),
        query: uri.query().map(|query| query.to_owned()),
    }
}

fn subdir(strip_prefix: bool, config: RequestFilterResult) -> SubDirCombined<RequestFilterResult> {
    SubDirCombined {
        subdir: SubDirConf { strip_prefix },
        config,
    }
}

fn configuration(add_default: bool) -> VirtualHostsConf<RequestFilterResult> {
    let subdirs = vec![
        ("/subdir/".to_owned(), subdir(true, RequestFilterResult::Unhandled)),
        (
            "/subdir/subsub".to_owned(),
            subdir(false, RequestFilterResult::Handled),
        ),
    ];

    let vhosts = vec![
        (
            "localhost:8080".to_owned(),
            VirtualHostCombined {
                host: VirtualHostConf {
                    aliases: vec!["127.0.0.1:8080".to_owned(), "[::1]:8080".to_owned()],
                    default: add_default,
                    subdirs,
                },
                config: RequestFilterResult::ResponseSent,
            },
        ),
        (
            "example.com".to_owned(),
            VirtualHostCombined {
                host: VirtualHostConf {
                    aliases: vec!["example.com:8080".to_owned()],
                    default: false,
                    subdirs: Vec::new(),
                },
                config: RequestFilterResult::Handled,
            },
        ),
    ];

    VirtualHostsConf { vhosts }
}

fn handler(add_default: bool) -> VirtualHostsHandler<Handler> {
    let mut diagnostics = Vec::new();
    let handler = VirtualHostsHandler::try_from(configuration(add_default), &mut diagnostics);
    assert!(diagnostics.is_empty());
    match handler {
        Ok(handler) => handler,
        Err(_) => panic!("the configuration is in order"),
    }
}

fn make_session(uri: &str, host: Option<&str>) -> Session {
    Session {
        host: host.map(|host| host.to_owned()),
        uri: request_uri(uri),
    }
}

fn request_filter(
    handler: &VirtualHostsHandler<Handler>,
    session: &mut Session,
) -> RequestFilterResult {
    match handler.route_request(session.host.as_deref(), &session.uri) {
        Some((handler, new_uri)) => {
            if let Some(new_uri) = new_uri {
                session.uri = new_uri;
            }
            handler.result
        }
        None => RequestFilterResult::Unhandled,
    }
}

#[test]
fn host_match() {
    let handler = handler(true);
    let mut session = make_session("/", Some("example.com"));
    assert_eq!(
        request_filter(&handler, &mut session),
        RequestFilterResult::Handled
    );
}

#[test]
fn host_alias_match() {
    let handler = handler(false);
    let mut session = make_session("/", Some("[::1]:8080"));
    assert_eq!(
        request_filter(&handler, &mut session),
        RequestFilterResult::ResponseSent
    );
}

#[test]
fn uri_match() {
    let handler = handler(false);
    let mut session = make_session("https://example.com/", None);
    assert_eq!(
        request_filter(&handler, &mut session),
        RequestFilterResult::Handled
    );
}

#[test]
fn uri_alias_match() {
    let handler = handler(false);
    let mut session = make_session("http://[::1]:8080/", None);
    assert_eq!(
        request_filter(&handler, &mut session),
        RequestFilterResult::ResponseSent
    );
}

#[test]
fn host_precedence() {
    let handler = handler(false);
    let mut session = make_session("https://localhost:8080/", Some("example.com"));
    assert_eq!(
        request_filter(&handler, &mut session),
        RequestFilterResult::Handled
    );
}

#[test]
fn default_fallback() {
    let handler = handler(true);
    let mut session = make_session("/", Some("example.net"));
    assert_eq!(
        request_filter(&handler, &mut session),
        RequestFilterResult::ResponseSent
    );
}

#[test]
fn no_default_fallback() {
    let handler = handler(false);
    let mut session = make_session("/", Some("example.net"));
    assert_eq!(
        request_filter(&handler, &mut session),
        RequestFilterResult::Unhandled
    );
}

#[test]
fn subdir_match() {
    let handler = handler(true);
    let mut session = make_session("/subdir/", Some("localhost:8080"));
    assert_eq!(
        request_filter(&handler, &mut session),
        RequestFilterResult::Unhandled
    );
    assert_eq!(session.uri_text(), "/");
}

#[test]
fn subdir_match_without_slash() {
    let handler = handler(true);
    let mut session = make_session("/subdir", Some("localhost:8080"));
    assert_eq!(
        request_filter(&handler, &mut session),
        RequestFilterResult::Unhandled
    );
    assert_eq!(session.uri_text(), "/");
}

#[test]
fn subdir_match_with_suffix() {
    let handler = handler(true);
    let mut session = make_session("/subdir/xyz?abc", Some("localhost:8080"));
    assert_eq!(
        request_filter(&handler, &mut session),
        RequestFilterResult::Unhandled
    );
    assert_eq!(session.uri_text(), "/xyz?abc");
}

#[test]
fn subdir_match_extra_slashes() {
    let handler = handler(true);
    let mut session = make_session("//subdir///xyz//", Some("localhost:8080"));
    assert_eq!(
        request_filter(&handler, &mut session),
        RequestFilterResult::Unhandled
    );
    assert_eq!(session.uri_text(), "///xyz//");
}

#[test]
fn subdir_no_match() {
    let handler = handler(true);
    let mut session = make_session("/subdir_xyz", Some("localhost:8080"));
    assert_eq!(
        request_filter(&handler, &mut session),
        RequestFilterResult::ResponseSent
    );
    assert_eq!(session.uri_text(), "/subdir_xyz");
}

#[test]
fn subdir_longer_match() {
    let handler = handler(true);
    let mut session = make_session("/subdir/subsub/xyz", Some("localhost:8080"));
    assert_eq!(
        request_filter(&handler, &mut session),
        RequestFilterResult::Handled
    );
    assert_eq!(session.uri_text(), "/subdir/subsub/xyz");
}

#[test]
fn registered_host_never_falls_through_to_the_default() {
    let handler = handler(true);
    for path in ["/", "/other", "/subdir/x", ""] {
        let found = handler.find_handler(Some(b"example.com"), path.as_bytes());
        assert_eq!(
            found.map(|(handler, _)| handler.result),
            Some(RequestFilterResult::Handled)
        );
    }
}

#[test]
fn alias_is_tried_before_the_default() {
    let handler = handler(true);
    let found = handler.find_handler(Some(b"example.com:8080"), b"/");
    assert_eq!(
        found.map(|(handler, _)| handler.result),
        Some(RequestFilterResult::Handled)
    );
    let found = handler.find_handler(None, b"/subdir/subsub");
    assert_eq!(
        found.map(|(handler, _)| handler.result),
        Some(RequestFilterResult::Handled)
    );
}

#[test]
fn best_match_strips_the_prefix_where_it_is_told_to() {
    let handler = handler(false);
    let found = handler.best_match(b"localhost:8080", b"/subdir");
    assert_eq!(found.map(|(_, path)| path), Some(Some(b"/".to_vec())));
    let found = handler.best_match(b"localhost:8080", b"/subdir/a/b/");
    assert_eq!(found.map(|(_, path)| path), Some(Some(b"/a/b/".to_vec())));
    let found = handler.best_match(b"localhost:8080", b"/subdir/subsub/a");
    assert_eq!(found.map(|(_, path)| path), Some(None));
    let found = handler.best_match(b"localhost:8080", b"/a");
    assert_eq!(found.map(|(_, path)| path), Some(None));
    assert!(handler.best_match(b"[::1]:8080", b"/a").is_none());
}

#[test]
fn first_default_host_wins() {
    let mut conf = configuration(true);
    conf.vhosts[1].1.host.default = true;
    let mut diagnostics = vec!["earlier".to_owned()];
    let handler: VirtualHostsHandler<Handler> =
        match VirtualHostsHandler::try_from(conf, &mut diagnostics) {
            Ok(handler) => handler,
            Err(_) => panic!("the configuration is in order"),
        };
    assert_eq!(diagnostics, vec!["earlier".to_owned(), "example.com".to_owned()]);
    let found = handler.find_handler(Some(b"example.net"), b"/");
    assert_eq!(
        found.map(|(handler, _)| handler.result),
        Some(RequestFilterResult::ResponseSent)
    );
}

#[test]
fn host_names_are_single_segments() {
    let mut conf = configuration(false);
    conf.vhosts[1].0 = "example.com/dir".to_owned();
    let mut diagnostics = Vec::new();
    let result: Result<VirtualHostsHandler<Handler>, _> =
        VirtualHostsHandler::try_from(conf, &mut diagnostics);
    match result {
        Err(SetupError::Config(ConfigError::InvalidHost(name))) => {
            assert_eq!(name, "example.com/dir")
        }
        _ => panic!("the host name is no segment"),
    }

    let converted = VirtualHostsConf {
        vhosts: vec![(
            String::new(),
            VirtualHostCombined {
                host: VirtualHostConf {
                    aliases: Vec::new(),
                    default: false,
                    subdirs: Vec::new(),
                },
                config: 1u8,
            },
        )],
    };
    let mut diagnostics = Vec::new();
    match VirtualHostsHandler::from_handlers(converted, &mut diagnostics) {
        Err(ConfigError::InvalidHost(name)) => assert_eq!(name, ""),
        _ => panic!("the host name is empty"),
    }
}

#[derive(Debug, PartialEq)]
struct Picky(u8);

impl TryFrom<u8> for Picky {
    type Error = String;

    fn try_from(value: u8) -> Result<Self, Self::Error> {
        if value < 10 {
            Ok(Picky(value))
        } else {
            Err(format!("{value} is too much"))
        }
    }
}

fn numbers(host: u8, first: u8, second: u8) -> VirtualHostsConf<u8> {
    VirtualHostsConf {
        vhosts: vec![(
            "host".to_owned(),
            VirtualHostCombined {
                host: VirtualHostConf {
                    aliases: vec!["alias".to_owned()],
                    default: true,
                    subdirs: vec![
                        (
                            "/a".to_owned(),
                            SubDirCombined {
                                subdir: SubDirConf { strip_prefix: true },
                                config: first,
                            },
                        ),
                        (
                            "/b".to_owned(),
                            SubDirCombined {
                                subdir: SubDirConf {
                                    strip_prefix: false,
                                },
                                config: second,
                            },
                        ),
                    ],
                },
                config: host,
            },
        )],
    }
}

#[test]
fn conversion_keeps_all_but_the_handlers() {
    let converted: VirtualHostsConf<Picky> = numbers(1, 2, 3).convert().unwrap();
    assert_eq!(converted.vhosts.len(), 1);
    let (name, host) = &converted.vhosts[0];
    assert_eq!(name, "host");
    assert_eq!(host.config, Picky(1));
    assert_eq!(host.host.aliases, vec!["alias".to_owned()]);
    assert!(host.host.default);
    assert_eq!(host.host.subdirs.len(), 2);
    assert_eq!(host.host.subdirs[0].0, "/a");
    assert!(host.host.subdirs[0].1.subdir.strip_prefix);
    assert_eq!(host.host.subdirs[0].1.config, Picky(2));
    assert_eq!(host.host.subdirs[1].0, "/b");
    assert!(!host.host.subdirs[1].1.subdir.strip_prefix);
    assert_eq!(host.host.subdirs[1].1.config, Picky(3));
}

#[test]
fn first_failing_conversion_fails_the_set_up() {
    let result: Result<VirtualHostsConf<Picky>, String> = numbers(1, 20, 30).convert();
    assert_eq!(result, Err("20 is too much".to_owned()));
    let result: Result<VirtualHostsConf<Picky>, String> = numbers(10, 20, 30).convert();
    assert_eq!(result, Err("10 is too much".to_owned()));

    let mut diagnostics = Vec::new();
    let result: Result<VirtualHostsHandler<Picky>, _> =
        VirtualHostsHandler::try_from(numbers(1, 2, 30), &mut diagnostics);
    match result {
        Err(SetupError::Conversion(error)) => assert_eq!(error, "30 is too much"),
        _ => panic!("the last conversion fails"),
    }
    assert!(diagnostics.is_empty());
}

#[test]
fn host_of_the_uri_comes_with_its_port() {
    assert_eq!(
        host_from_uri(&request_uri("http://example.com:8080/a")),
        Some("example.com:8080".to_owned())
    );
    assert_eq!(
        host_from_uri(&request_uri("https://example.com/a")),
        Some("example.com".to_owned())
    );
    assert_eq!(host_from_uri(&request_uri("/a")), None);
}

#[test]
fn new_path_keeps_the_query() {
    let uri = request_uri("https://example.com/subdir/file?a=b&c");
    let rewritten = set_uri_path(&uri, b"/file");
    assert_eq!(rewritten.path, "/file");
    assert_eq!(rewritten.query, Some("a=b&c".to_owned()));
    assert_eq!(rewritten.scheme, Some("https".to_owned()));
    assert_eq!(rewritten.authority, Some("example.com".to_owned()));
    assert_eq!(rewritten.host, uri.host);
    assert_eq!(rewritten.port, None);

    let uri = request_uri("/subdir/file");
    let rewritten = set_uri_path(&uri, b"/");
    assert_eq!(rewritten.path, "/");
    assert_eq!(rewritten.query, None);
}

#[test]
fn uri_stays_where_the_new_path_is_none() {
    let uri = request_uri("/subdir/file?q");
    assert_eq!(set_uri_path(&uri, b"/fi le"), uri);
    assert_eq!(set_uri_path(&uri, b"file"), uri);
    let plain = request_uri("/subdir/file");
    assert_eq!(set_uri_path(&plain, b""), plain);

    let authority_only = request_uri("example.com:443");
    assert_eq!(set_uri_path(&authority_only, b"/file"), authority_only);
    assert_eq!(
        with_path_and_query(&authority_only, Some(("/x".to_owned(), None))),
        authority_only
    );
    let mut scheme_only = request_uri("/file");
    scheme_only.scheme = Some("https".to_owned());
    assert_eq!(set_uri_path(&scheme_only, b"/other"), scheme_only);
    assert_eq!(with_path_and_query(&uri, None), uri);
    let rewritten = with_path_and_query(&uri, Some(("/x".to_owned(), Some("y".to_owned()))));
    assert_eq!(rewritten.path, "/x");
    assert_eq!(rewritten.query, Some("y".to_owned()));
}

#[test]
fn response_sent_ends_the_processing() {
    assert!(RequestFilterResult::ResponseSent.response_sent());
    assert!(!RequestFilterResult::Handled.response_sent());
    assert!(!RequestFilterResult::Unhandled.response_sent());
    assert_eq!(RequestFilterResult::default(), RequestFilterResult::Unhandled);
}
