use vhost_router::aliases::Aliases;
use vhost_router::match_rules::{HostPathMatcher, MatchRules, Path, PathMatchResult};

fn rule(host: &str, path: &str, exact: bool) -> HostPathMatcher {
    HostPathMatcher {
        host: host.as_bytes().to_vec(),
        path: Path::new(path.as_bytes()),
        exact,
    }
}

fn result(exact: bool, prefix: bool, fallback: bool) -> PathMatchResult {
    PathMatchResult {
        exact,
        prefix,
        fallback,
    }
}

fn path(path: &str) -> Path {
    Path::new(path.as_bytes())
}

#[test]
fn no_rules_match_everything() {
    let rules = MatchRules {
        includes: Vec::new(),
        excludes: Vec::new(),
    };
    assert_eq!(
        rules.matches(b"example.com", &path("/dir/file"), false),
        result(false, true, true)
    );
    assert_eq!(
        rules.matches(b"example.com", &path("/"), false),
        result(true, true, true)
    );
    assert_eq!(
        rules.matches(b"", &path("/dir"), true),
        result(false, true, false)
    );
    assert_eq!(rules.matches(b"", &path(""), false), result(true, true, false));
    assert_eq!(
        rules
            .matches(b"example.com", &path("/dir/file"), false)
            .specificity(),
        1
    );
}

#[test]
fn specificity_orders_the_matches() {
    assert_eq!(PathMatchResult::empty().specificity(), 0);
    assert_eq!(result(false, true, true).specificity(), 1);
    assert_eq!(result(true, false, true).specificity(), 2);
    assert_eq!(result(true, true, true).specificity(), 2);
    assert_eq!(result(false, true, false).specificity(), 3);
    assert_eq!(result(true, false, false).specificity(), 4);
    assert_eq!(result(true, true, false).specificity(), 4);
    assert!(!PathMatchResult::empty().any());
    assert!(!result(false, false, true).any());
    assert!(result(false, true, false).any());
    assert_eq!(
        PathMatchResult::empty().set_fallback().set_exact(),
        result(true, false, true)
    );
    assert_eq!(PathMatchResult::empty().set_prefix(), result(false, true, false));
}

#[test]
fn rules_match_by_host_and_path() {
    let exact = rule("example.com", "/dir", true);
    assert_eq!(
        exact.matches(b"example.com", &path("/dir/"), false),
        result(true, false, false)
    );
    assert_eq!(
        exact.matches(b"example.com", &path("/dir/sub"), false),
        PathMatchResult::empty()
    );
    assert_eq!(
        exact.matches(b"example.com", &path("/dir/sub"), true),
        result(false, true, false)
    );
    assert_eq!(
        exact.matches(b"example.net", &path("/dir"), false),
        PathMatchResult::empty()
    );
    assert_eq!(
        exact.matches(b"", &path("/dir"), false),
        PathMatchResult::empty()
    );

    let prefix = rule("example.com", "/dir", false);
    assert_eq!(
        prefix.matches(b"example.com", &path("/dir"), false),
        result(true, true, false)
    );
    assert_eq!(
        prefix.matches(b"example.com", &path("/dir/sub/file"), false),
        result(false, true, false)
    );
    assert_eq!(
        prefix.matches(b"example.com", &path("/directory"), false),
        PathMatchResult::empty()
    );
    assert_eq!(
        prefix.matches(b"example.com", &path("/"), false),
        PathMatchResult::empty()
    );

    let fallback = rule("", "/dir", false);
    assert_eq!(
        fallback.matches(b"example.com", &path("/dir/sub"), false),
        result(false, true, true)
    );
    assert_eq!(
        fallback.matches(b"", &path("/dir"), false),
        result(true, true, false)
    );
}

#[test]
fn closest_rule_decides() {
    let rules = MatchRules {
        includes: vec![rule("", "/", false), rule("example.com", "/dir", false)],
        excludes: vec![rule("example.com", "/dir/private", true), rule("", "/tmp", false)],
    };
    // a rule of the host for a path above
    assert_eq!(
        rules.matches(b"example.com", &path("/dir/file"), false),
        result(false, true, false)
    );
    // the excluding rule is for the very host and path
    assert_eq!(
        rules.matches(b"example.com", &path("/dir/private"), false),
        PathMatchResult::empty()
    );
    // below the excluded path the excluding rule does not match
    assert_eq!(
        rules.matches(b"example.com", &path("/dir/private/file"), false),
        result(false, true, false)
    );
    // unless all rules are taken to go for what is below them: then the two tie
    assert_eq!(
        rules.matches(b"example.com", &path("/dir/private/file"), true),
        PathMatchResult::empty()
    );
    // fallback rules of the same closeness: the excluding one decides
    assert_eq!(
        rules.matches(b"example.net", &path("/tmp/file"), false),
        PathMatchResult::empty()
    );
    assert_eq!(
        rules.matches(b"example.net", &path("/other"), false),
        result(false, true, true)
    );
    // a rule of the host is closer than the excluding fallback rule
    let rules = MatchRules {
        includes: vec![rule("example.com", "/", false)],
        excludes: vec![rule("", "/tmp", true)],
    };
    assert_eq!(
        rules.matches(b"example.com", &path("/tmp"), false),
        result(false, true, false)
    );
    assert_eq!(
        rules.matches(b"example.net", &path("/tmp"), false),
        PathMatchResult::empty()
    );
}

#[test]
fn only_excluding_rules_never_apply() {
    let rules = MatchRules {
        includes: Vec::new(),
        excludes: vec![rule("example.com", "/", false)],
    };
    assert_eq!(
        rules.matches(b"example.com", &path("/file"), false),
        PathMatchResult::empty()
    );
    assert_eq!(
        rules.matches(b"example.net", &path("/file"), false),
        PathMatchResult::empty()
    );
}

#[test]
fn rules_list_their_hosts_and_paths() {
    let rules = MatchRules {
        includes: vec![rule("a", "/x/", true)],
        excludes: vec![rule("", "y//z", false), rule("b", "", false)],
    };
    let pairs = rules.iter();
    assert_eq!(pairs.len(), 3);
    assert_eq!(pairs[0].0, b"a");
    assert!(pairs[0].1.same(&path("x")));
    assert_eq!(pairs[1].0, b"");
    assert!(pairs[1].1.same(&path("/y/z")));
    assert_eq!(pairs[2].0, b"b");
    assert!(pairs[2].1.is_empty());

    let rules = MatchRules {
        includes: Vec::new(),
        excludes: Vec::new(),
    };
    let pairs = rules.iter();
    assert_eq!(pairs.len(), 1);
    assert_eq!(pairs[0].0, b"");
    assert!(pairs[0].1.is_empty());
}

#[test]
fn paths_go_by_their_segments() {
    assert!(path("").is_empty());
    assert!(path("///").is_empty());
    assert!(!path("/a").is_empty());
    assert!(path("/a//b/").same(&path("a/b")));
    assert!(!path("/a/b").same(&path("/a/bc")));
    assert!(path("/a").leads_to(&path("/a/b")));
    assert!(path("/a/b").leads_to(&path("/a/b")));
    assert!(path("").leads_to(&path("/a/b")));
    assert!(Path::empty().leads_to(&Path::empty()));
    assert!(!path("/a/b").leads_to(&path("/a")));
    assert!(!path("/a").leads_to(&path("/ab")));
    assert!(path("/a/b").copy().same(&path("/a/b")));
    assert_eq!(path("//a///b/").as_bytes(), b"a/b");
    assert_eq!(path("/").as_bytes(), b"");
}

#[test]
fn patterns_spell_rules() {
    let rule = HostPathMatcher::parse(b"example.com/dir");
    assert_eq!(rule.host, b"example.com");
    assert_eq!(rule.path.as_bytes(), b"dir");
    assert!(rule.exact);

    let rule = HostPathMatcher::parse(b"example.com/dir/sub/*");
    assert_eq!(rule.host, b"example.com");
    assert_eq!(rule.path.as_bytes(), b"dir/sub");
    assert!(!rule.exact);

    let rule = HostPathMatcher::parse(b"/dir/*");
    assert_eq!(rule.host, b"");
    assert_eq!(rule.path.as_bytes(), b"dir");
    assert!(!rule.exact);

    let rule = HostPathMatcher::parse(b"/*");
    assert_eq!(rule.host, b"");
    assert!(rule.path.is_empty());
    assert!(!rule.exact);

    let rule = HostPathMatcher::parse(b"example.com");
    assert_eq!(rule.host, b"example.com");
    assert!(rule.path.is_empty());
    assert!(rule.exact);

    let rule = HostPathMatcher::parse(b"example.com/*");
    assert_eq!(rule.host, b"example.com");
    assert!(rule.path.is_empty());
    assert!(!rule.exact);

    let rule = HostPathMatcher::parse(b"*");
    assert_eq!(rule.host, b"*");
    assert!(rule.exact);

    let rule = HostPathMatcher::parse(b"host/a*");
    assert_eq!(rule.path.as_bytes(), b"a*");
    assert!(rule.exact);

    let rule = HostPathMatcher::parse(b"");
    assert_eq!(rule.host, b"");
    assert!(rule.path.is_empty());
    assert!(rule.exact);

    let (host, path) = HostPathMatcher::parse(b"host//a/b/*").iter();
    assert_eq!(host, b"host");
    assert_eq!(path.as_bytes(), b"a/b");
}

#[test]
fn alias_stands_for_the_host_inserted_last() {
    let mut aliases = Aliases::new();
    assert_eq!(aliases.get(b"a"), None);
    aliases.insert(b"a".to_vec(), b"host".to_vec());
    aliases.insert(b"b".to_vec(), b"other".to_vec());
    assert_eq!(aliases.get(b"a"), Some(&b"host".to_vec()));
    assert_eq!(aliases.get(b"b"), Some(&b"other".to_vec()));
    aliases.insert(b"a".to_vec(), b"third".to_vec());
    assert_eq!(aliases.get(b"a"), Some(&b"third".to_vec()));
    assert_eq!(aliases.get(b"b"), Some(&b"other".to_vec()));
    assert_eq!(aliases.get(b"ab"), None);
    assert_eq!(aliases.get(b""), None);
}
