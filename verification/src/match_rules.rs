//! Including and excluding rules that tell where a configuration entry applies, and how
//! close a rule comes to a host and a path.

use crate::label::{
    common_prefix_length, is_common_prefix, is_normalized, is_path_prefix, same_bytes, SEPARATOR,
};
use crate::segments::{label_of, normalize, segments_of};
use vstd::prelude::*;

verus! {

/// A path by its segments: the segments with single separators between them, and none
/// before or behind.
#[derive(Debug, PartialEq, Eq)]
pub struct Path {
    label: Vec<u8>,
}

impl Path {
    #[verifier::type_invariant]
    closed spec fn wf(self) -> bool {
        is_normalized(self.label@)
    }

    /// The path that the given bytes spell: what separators there are too many of is
    /// left out.
    pub fn new(path: &[u8]) -> (result: Path)
        ensures
            result@ == label_of(segments_of(path@)),
    {
        Path { label: normalize(path) }
    }

    /// The path without segments.
    pub fn empty() -> (result: Path)
        ensures
            result@.len() == 0,
    {
        Path { label: Vec::new() }
    }

    /// The label of the path: its segments with single separators between them.
    pub fn as_bytes(&self) -> (label: &[u8])
        ensures
            label@ == self@,
    {
        self.label.as_slice()
    }

    /// Tells whether the path has no segments.
    pub fn is_empty(&self) -> (empty: bool)
        ensures
            empty == (self@.len() == 0),
    {
        self.label.len() == 0
    }

    /// Tells whether the two paths are the same.
    pub fn same(&self, other: &Path) -> (same: bool)
        ensures
            same == (self@ == other@),
    {
        same_bytes(self.label.as_slice(), other.label.as_slice())
    }

    /// Tells whether the other path begins with the segments of this one.
    pub fn leads_to(&self, other: &Path) -> (leads: bool)
        ensures
            leads == is_path_prefix(self@, other@),
    {
        proof {
            use_type_invariant(self);
            use_type_invariant(other);
        }
        if self.label.len() == 0 {
            return true;
        }
        let length = common_prefix_length(self.label.as_slice(), other.label.as_slice());
        proof {
            let prefix = self.label@;
            let whole = other.label@;
            if is_path_prefix(prefix, whole) {
                assert(whole.subrange(0, prefix.len() as int) =~= prefix.subrange(
                    0,
                    prefix.len() as int,
                )) by {
                    assert(prefix.subrange(0, prefix.len() as int) =~= prefix);
                    if whole == prefix {
                    } else {
                        assert(whole.subrange(0, prefix.len() as int) == prefix);
                    }
                }
                assert(is_common_prefix(prefix, whole, prefix.len() as int));
            }
            if length == prefix.len() {
                assert(prefix.subrange(0, length as int) =~= prefix);
                if whole.len() == length {
                    assert(whole.subrange(0, length as int) =~= whole);
                }
            }
        }
        length == self.label.len()
    }

    /// A copy of the path.
    pub fn copy(&self) -> (copy: Path)
        ensures
            copy@ == self@,
    {
        proof {
            use_type_invariant(self);
        }
        let mut label: Vec<u8> = Vec::new();
        label.extend_from_slice(self.label.as_slice());
        Path { label }
    }
}

impl Clone for Path {
    /// A copy of the path.
    fn clone(&self) -> (copy: Path)
        ensures
            copy@ == self@,
    {
        self.copy()
    }
}

impl View for Path {
    type V = Seq<u8>;

    /// The label of the path: its segments with separators between them.
    closed spec fn view(&self) -> Seq<u8> {
        self.label@
    }
}

/// How a rule matches a host and a path: whether the path is the very path of the rule,
/// whether it lies at or below the path of a rule that goes for all that is below it, and
/// whether the rule is one for any host that matched for want of another. A result
/// without `exact` and `prefix` is no match.
///
/// Results are ordered by how specific they are: a rule for the very host goes before one
/// for any host, and among these the very path goes before a path above it.
#[derive(Debug, Copy, Clone, PartialEq, Eq, Structural)]
pub struct PathMatchResult {
    /// Whether the path is the very path of the rule
    pub exact: bool,
    /// Whether the path lies at or below the path of a rule that goes for all below it
    pub prefix: bool,
    /// Whether the rule is one for any host
    pub fallback: bool,
}

/// No match.
pub open spec fn no_match() -> PathMatchResult {
    PathMatchResult { exact: false, prefix: false, fallback: false }
}

impl PathMatchResult {
    /// How specific the match is: 0 for no match, 1 for a fallback rule on a path above,
    /// 2 for a fallback rule on the very path, 3 for a rule of the host on a path above,
    /// 4 for a rule of the host on the very path.
    pub open spec fn specificity_of(self) -> int {
        if !self.exact && !self.prefix {
            0
        } else if self.fallback {
            if self.exact {
                2
            } else {
                1
            }
        } else {
            if self.exact {
                4
            } else {
                3
            }
        }
    }

    /// No match.
    pub fn empty() -> (result: PathMatchResult)
        ensures
            result == no_match(),
    {
        PathMatchResult { exact: false, prefix: false, fallback: false }
    }

    /// Tells whether this is a match at all.
    pub fn any(&self) -> (any: bool)
        ensures
            any == (self.exact || self.prefix),
            any == (self.specificity_of() > 0),
    {
        self.exact || self.prefix
    }

    /// The result with the mark of the very path.
    pub fn set_exact(self) -> (result: PathMatchResult)
        ensures
            result == (PathMatchResult { exact: true, prefix: self.prefix, fallback: self.fallback }),
    {
        PathMatchResult { exact: true, prefix: self.prefix, fallback: self.fallback }
    }

    /// The result with the mark of a path at or below that of the rule.
    pub fn set_prefix(self) -> (result: PathMatchResult)
        ensures
            result == (PathMatchResult { exact: self.exact, prefix: true, fallback: self.fallback }),
    {
        PathMatchResult { exact: self.exact, prefix: true, fallback: self.fallback }
    }

    /// The result with the mark of a rule for any host.
    pub fn set_fallback(self) -> (result: PathMatchResult)
        ensures
            result == (PathMatchResult { exact: self.exact, prefix: self.prefix, fallback: true }),
    {
        PathMatchResult { exact: self.exact, prefix: self.prefix, fallback: true }
    }

    /// How specific the match is: 0 for no match, then from 1, for a fallback rule on a
    /// path above, to 4, for a rule of the host on the very path.
    pub fn specificity(&self) -> (level: u8)
        ensures
            level == self.specificity_of(),
    {
        if !self.exact && !self.prefix {
            0
        } else if self.fallback {
            if self.exact {
                2
            } else {
                1
            }
        } else {
            if self.exact {
                4
            } else {
                3
            }
        }
    }
}

/// A rule for a host and a path: for the very path, or for the path and all below it. A
/// rule without a host is a fallback rule, which goes for any host.
#[derive(Debug, Clone, PartialEq, Eq)]
pub struct HostPathMatcher {
    /// The host, or nothing for any host
    pub host: Vec<u8>,
    /// The path
    pub path: Path,
    /// If `true`, the rule goes for the very path only.
    pub exact: bool,
}

/// How a rule for `rule_host` and `rule_path`, for the very path only if `rule_exact`,
/// matches `host` and `path`, where `force_prefix` makes every rule go for all below its
/// path.
///
/// A rule for another host is no match. A rule for any host is a fallback match for
/// every host but none. The match is exact where the paths are the same, and a prefix
/// match where the rule goes for all below its path and the path begins with it; it is no
/// match where it is neither.
pub open spec fn rule_match(
    rule_host: Seq<u8>,
    rule_path: Seq<u8>,
    rule_exact: bool,
    host: Seq<u8>,
    path: Seq<u8>,
    force_prefix: bool,
) -> PathMatchResult {
    let exact = path == rule_path;
    let prefix = (!rule_exact || force_prefix) && is_path_prefix(rule_path, path);
    if rule_host.len() > 0 && rule_host != host {
        no_match()
    } else if !exact && !prefix {
        no_match()
    } else {
        PathMatchResult { exact, prefix, fallback: rule_host.len() == 0 && host.len() > 0 }
    }
}

/// The star that stands at the end of a rule for a path and all below it.
pub const STAR: u8 = 42u8;

/// How many bytes of a pattern stand before its first separator: all of them where it has
/// none.
pub open spec fn host_length(pattern: Seq<u8>) -> nat
    decreases pattern.len(),
{
    if pattern.len() == 0 || pattern[0] == SEPARATOR {
        0
    } else {
        1 + host_length(pattern.skip(1))
    }
}

/// Whether a pattern is one for a path and all below it: it ends with a separator and a
/// star, behind its host.
pub open spec fn ends_with_star(pattern: Seq<u8>) -> bool {
    pattern.len() >= host_length(pattern) + 2 && pattern[pattern.len() - 2] == SEPARATOR
        && pattern[pattern.len() - 1] == STAR
}

/// The bytes of the path in a pattern: what follows the host, without the separator and
/// the star at the end of a pattern that has them.
pub open spec fn pattern_path(pattern: Seq<u8>) -> Seq<u8> {
    if ends_with_star(pattern) {
        pattern.subrange(host_length(pattern) as int, pattern.len() - 2)
    } else {
        pattern.skip(host_length(pattern) as int)
    }
}

impl HostPathMatcher {
    /// Reads a rule out of a pattern: the host is what stands before the first separator,
    /// which is nothing in a fallback rule, and the path is what follows. A pattern that
    /// ends with a separator and a star is a rule for the path before them and all below
    /// it; any other is a rule for the very path.
    pub fn parse(pattern: &[u8]) -> (rule: HostPathMatcher)
        ensures
            rule.host@ == pattern@.take(host_length(pattern@) as int),
            rule.path@ == label_of(segments_of(pattern_path(pattern@))),
            rule.exact == !ends_with_star(pattern@),
    {
        let mut index: usize = 0;
        proof {
            assert(pattern@.skip(0) =~= pattern@);
        }
        while index < pattern.len() && pattern[index] != SEPARATOR
            invariant
                index <= pattern@.len(),
                host_length(pattern@) == index + host_length(pattern@.skip(index as int)),
            decreases pattern@.len() - index,
        {
            proof {
                assert(pattern@.skip(index as int).skip(1) =~= pattern@.skip(index + 1));
            }
            index += 1;
        }
        let mut host: Vec<u8> = Vec::new();
        host.extend_from_slice(&pattern[0..index]);
        let length = pattern.len();
        let star = length - index >= 2 && pattern[length - 2] == SEPARATOR && pattern[length - 1]
            == STAR;
        let end = if star {
            length - 2
        } else {
            length
        };
        proof {
            if !star {
                assert(pattern@.subrange(index as int, end as int) =~= pattern@.skip(index as int));
            }
        }
        HostPathMatcher { host, path: Path::new(&pattern[index..end]), exact: !star }
    }

    /// How the rule matches a host and a path.
    pub open spec fn match_of(self, host: Seq<u8>, path: Seq<u8>, force_prefix: bool) -> PathMatchResult {
        rule_match(self.host@, self.path@, self.exact, host, path, force_prefix)
    }

    /// Tells how the rule matches a host and a path. With `force_prefix` the rule goes
    /// for all that is below its path, whether it was made for the very path only or not.
    pub fn matches(&self, host: &[u8], path: &Path, force_prefix: bool) -> (result: PathMatchResult)
        ensures
            result == self.match_of(host@, path@, force_prefix),
    {
        if self.host.len() > 0 && !same_bytes(self.host.as_slice(), host) {
            return PathMatchResult::empty();
        }
        let exact = path.same(&self.path);
        let prefix = (!self.exact || force_prefix) && self.path.leads_to(path);
        if !exact && !prefix {
            return PathMatchResult::empty();
        }
        let mut result = PathMatchResult::empty();
        if self.host.len() == 0 && host.len() > 0 {
            result = result.set_fallback();
        }
        if exact {
            result = result.set_exact();
        }
        if prefix {
            result = result.set_prefix();
        }
        result
    }

    /// The host and the path that the rule is for.
    pub fn iter(&self) -> (pair: (Vec<u8>, Path))
        ensures
            pair.0@ == self.host@,
            pair.1@ == self.path@,
    {
        let mut host: Vec<u8> = Vec::new();
        host.extend_from_slice(self.host.as_slice());
        (host, self.path.copy())
    }
}

/// The best match among the first `count` of `rules`: the result of the rule that
/// matches most specifically, and of the last of these where there are several; no match
/// where no rule matches.
pub open spec fn best_of(
    rules: Seq<HostPathMatcher>,
    host: Seq<u8>,
    path: Seq<u8>,
    force_prefix: bool,
    count: nat,
) -> PathMatchResult
    decreases count,
{
    if count == 0 {
        no_match()
    } else {
        let before = best_of(rules, host, path, force_prefix, (count - 1) as nat);
        let current = rules[count - 1].match_of(host, path, force_prefix);
        if current.specificity_of() > 0 && current.specificity_of() >= before.specificity_of() {
            current
        } else {
            before
        }
    }
}

/// The best match among rules is as specific as the match of any of them, and is the
/// match of one of them unless none matches.
pub proof fn lemma_best_of(
    rules: Seq<HostPathMatcher>,
    host: Seq<u8>,
    path: Seq<u8>,
    force_prefix: bool,
    count: nat,
)
    requires
        count <= rules.len(),
    ensures
        forall|i: int|
            0 <= i < count ==> (#[trigger] rules[i]).match_of(
                host,
                path,
                force_prefix,
            ).specificity_of() <= best_of(rules, host, path, force_prefix, count).specificity_of(),
        best_of(rules, host, path, force_prefix, count) == no_match() || exists|i: int|
            0 <= i < count && (#[trigger] rules[i]).match_of(host, path, force_prefix) == best_of(
                rules,
                host,
                path,
                force_prefix,
                count,
            ),
    decreases count,
{
    if count > 0 {
        lemma_best_of(rules, host, path, force_prefix, (count - 1) as nat);
        let before = best_of(rules, host, path, force_prefix, (count - 1) as nat);
        let best = best_of(rules, host, path, force_prefix, count);
        if best != no_match() {
            if best == before {
                let i = choose|i: int|
                    0 <= i < count - 1 && (#[trigger] rules[i]).match_of(host, path, force_prefix)
                        == before;
                assert(rules[i].match_of(host, path, force_prefix) == best);
            } else {
                assert(rules[count - 1].match_of(host, path, force_prefix) == best);
            }
        }
    }
}

/// Including and excluding rules applying to a configuration entry
///
/// When deciding which rule applies, the closest rule to the host and path is selected:
///
/// * A rule for this very host and path is the closest there is.
/// * A rule for this host and a path above comes next.
/// * Fallback rules, which go for any host, apply only if no rule for the host matches.
///   Among them one for the very path is closer than one for a path above.
///
/// The configuration entry applies to a host and path only if there is a matching rule
/// and the closest one is an including rule.
#[derive(Debug, Clone, PartialEq, Eq)]
pub struct MatchRules {
    /// Rules determining the locations where the configuration entry should apply
    pub includes: Vec<HostPathMatcher>,
    /// Rules determining the locations where the configuration entry should not apply
    pub excludes: Vec<HostPathMatcher>,
}

/// How rules match a host and a path.
///
/// Without any rule every host and path matches, as it would a fallback rule for all
/// paths. Else the result is that of the best matching including rule, unless an excluding
/// rule matches at least as specifically, or no including rule matches: then it is no
/// match.
pub open spec fn rules_match(
    includes: Seq<HostPathMatcher>,
    excludes: Seq<HostPathMatcher>,
    host: Seq<u8>,
    path: Seq<u8>,
    force_prefix: bool,
) -> PathMatchResult {
    if includes.len() == 0 && excludes.len() == 0 {
        PathMatchResult { exact: path.len() == 0, prefix: true, fallback: host.len() > 0 }
    } else {
        let excluded = best_of(excludes, host, path, force_prefix, excludes.len());
        let included = best_of(includes, host, path, force_prefix, includes.len());
        if excluded.specificity_of() > 0 && included.specificity_of()
            <= excluded.specificity_of() {
            no_match()
        } else {
            included
        }
    }
}

impl MatchRules {
    /// Finds the best match among rules.
    fn find_match(rules: &Vec<HostPathMatcher>, host: &[u8], path: &Path, force_prefix: bool) -> (best:
        PathMatchResult)
        ensures
            best == best_of(rules@, host@, path@, force_prefix, rules@.len()),
    {
        let mut best = PathMatchResult::empty();
        let mut i: usize = 0;
        while i < rules.len()
            invariant
                i <= rules@.len(),
                best == best_of(rules@, host@, path@, force_prefix, i as nat),
            decreases rules@.len() - i,
        {
            let current = rules[i].matches(host, path, force_prefix);
            if current.any() && current.specificity() >= best.specificity() {
                best = current;
            }
            i += 1;
        }
        best
    }

    /// Tells how the rules match a host and a path.
    pub fn matches(&self, host: &[u8], path: &Path, force_prefix: bool) -> (result: PathMatchResult)
        ensures
            result == rules_match(self.includes@, self.excludes@, host@, path@, force_prefix),
    {
        if self.includes.len() == 0 && self.excludes.len() == 0 {
            // By default, this is a fallback rule matching everything
            let result = if host.len() == 0 {
                PathMatchResult::empty()
            } else {
                PathMatchResult::empty().set_fallback()
            };

            return if path.is_empty() {
                result.set_exact().set_prefix()
            } else {
                result.set_prefix()
            };
        }
        let excluded = Self::find_match(&self.excludes, host, path, force_prefix);
        let included = Self::find_match(&self.includes, host, path, force_prefix);
        if excluded.any() && included.specificity() <= excluded.specificity() {
            PathMatchResult::empty()
        } else {
            included
        }
    }

    /// The hosts and paths that the rules are for, those of the including rules first; a
    /// single pair of no host and the path without segments where there are no rules.
    pub fn iter(&self) -> (pairs: Vec<(Vec<u8>, Path)>)
        ensures
            self.includes@.len() == 0 && self.excludes@.len() == 0 ==> pairs@.len() == 1
                && pairs@[0].0@.len() == 0 && pairs@[0].1@.len() == 0,
            self.includes@.len() + self.excludes@.len() > 0 ==> pairs@.len() == self.includes@.len()
                + self.excludes@.len(),
            self.includes@.len() + self.excludes@.len() > 0 ==> forall|i: int|
                0 <= i < pairs@.len() ==> (#[trigger] pairs@[i]).0@ == (self.includes@
                    + self.excludes@)[i].host@ && pairs@[i].1@ == (self.includes@
                    + self.excludes@)[i].path@,
    {
        let mut pairs: Vec<(Vec<u8>, Path)> = Vec::new();
        if self.includes.len() == 0 && self.excludes.len() == 0 {
            pairs.push((Vec::new(), Path::empty()));
            return pairs;
        }
        let mut i: usize = 0;
        while i < self.includes.len()
            invariant
                i <= self.includes@.len(),
                pairs@.len() == i,
                forall|k: int|
                    0 <= k < i ==> (#[trigger] pairs@[k]).0@ == self.includes@[k].host@
                        && pairs@[k].1@ == self.includes@[k].path@,
            decreases self.includes@.len() - i,
        {
            pairs.push(self.includes[i].iter());
            i += 1;
        }
        let mut j: usize = 0;
        while j < self.excludes.len()
            invariant
                j <= self.excludes@.len(),
                pairs@.len() == self.includes@.len() + j,
                forall|k: int|
                    0 <= k < self.includes@.len() ==> (#[trigger] pairs@[k]).0@
                        == self.includes@[k].host@ && pairs@[k].1@ == self.includes@[k].path@,
                forall|k: int|
                    0 <= k < j ==> (#[trigger] pairs@[self.includes@.len() + k]).0@
                        == self.excludes@[k].host@ && pairs@[self.includes@.len() + k].1@
                        == self.excludes@[k].path@,
            decreases self.excludes@.len() - j,
        {
            pairs.push(self.excludes[j].iter());
            j += 1;
        }
        proof {
            assert forall|i: int| 0 <= i < pairs@.len() implies (#[trigger] pairs@[i]).0@ == (
            self.includes@ + self.excludes@)[i].host@ && pairs@[i].1@ == (self.includes@
                + self.excludes@)[i].path@ by {
                if i >= self.includes@.len() {
                    let k = i - self.includes@.len();
                    assert(pairs@[self.includes@.len() + k].0@ == self.excludes@[k].host@);
                }
            }
        }
        pairs
    }
}

/// Combines a given configuration with match rules determining what host/path
/// combinations it should apply to.
#[derive(Debug, Clone, PartialEq, Eq)]
pub struct WithMatchRules<C> {
    /// The match rules
    pub match_rules: MatchRules,
    /// The actual configuration
    pub conf: C,
}

/// Without rules every host and path matches, and no more specifically than a fallback
/// rule for all paths would: a request that names a host, for a path with segments, is
/// matched least specifically of all.
pub proof fn law_no_rules(host: Seq<u8>, path: Seq<u8>, force_prefix: bool)
    ensures
        rules_match(Seq::empty(), Seq::empty(), host, path, force_prefix).specificity_of() > 0,
        rules_match(Seq::empty(), Seq::empty(), host, path, force_prefix) == rule_match(
            Seq::empty(),
            Seq::empty(),
            false,
            host,
            path,
            force_prefix,
        ),
        host.len() > 0 && path.len() > 0 ==> rules_match(
            Seq::empty(),
            Seq::empty(),
            host,
            path,
            force_prefix,
        ).specificity_of() == 1,
{
    assert(is_path_prefix(Seq::<u8>::empty(), path));
    assert((path == Seq::<u8>::empty()) == (path.len() == 0)) by {
        if path.len() == 0 {
            assert(path =~= Seq::<u8>::empty());
        }
    }
}

/// An excluding rule that matches as specifically as every including rule, or more so, keeps
/// the rules from applying.
pub proof fn law_excluding_rule_suppresses(
    includes: Seq<HostPathMatcher>,
    excludes: Seq<HostPathMatcher>,
    host: Seq<u8>,
    path: Seq<u8>,
    force_prefix: bool,
    at: int,
)
    requires
        0 <= at < excludes.len(),
        excludes[at].match_of(host, path, force_prefix).specificity_of() > 0,
        forall|i: int|
            0 <= i < includes.len() ==> (#[trigger] includes[i]).match_of(
                host,
                path,
                force_prefix,
            ).specificity_of() <= excludes[at].match_of(host, path, force_prefix).specificity_of(),
    ensures
        rules_match(includes, excludes, host, path, force_prefix) == no_match(),
{
    lemma_best_of(excludes, host, path, force_prefix, excludes.len());
    lemma_best_of(includes, host, path, force_prefix, includes.len());
}

/// Where an including rule matches more specifically than every excluding rule the rules
/// apply, with the result of the best matching including rule.
pub proof fn law_including_rule_applies(
    includes: Seq<HostPathMatcher>,
    excludes: Seq<HostPathMatcher>,
    host: Seq<u8>,
    path: Seq<u8>,
    force_prefix: bool,
    at: int,
)
    requires
        0 <= at < includes.len(),
        includes[at].match_of(host, path, force_prefix).specificity_of() > 0,
        forall|i: int|
            0 <= i < excludes.len() ==> (#[trigger] excludes[i]).match_of(
                host,
                path,
                force_prefix,
            ).specificity_of() < includes[at].match_of(host, path, force_prefix).specificity_of(),
    ensures
        rules_match(includes, excludes, host, path, force_prefix) == best_of(
            includes,
            host,
            path,
            force_prefix,
            includes.len(),
        ),
        rules_match(includes, excludes, host, path, force_prefix).specificity_of() >= includes[at].match_of(
            host,
            path,
            force_prefix,
        ).specificity_of(),
{
    lemma_best_of(excludes, host, path, force_prefix, excludes.len());
    lemma_best_of(includes, host, path, force_prefix, includes.len());
}

} // verus!
