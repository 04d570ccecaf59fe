//! The configuration of virtual hosts, and what a handler built from it holds.

use crate::router::route_label;
use vstd::prelude::*;
use vstd::std_specs::convert::TryIntoSpec;
use vstd::utf8::encode_utf8;

verus! {

/// Settings of a subdirectory of a virtual host
#[derive(Debug, Clone, PartialEq, Eq)]
pub struct SubDirConf {
    /// If `true`, the path of the subdirectory is removed from the path of the request
    /// before the handler of the subdirectory gets to see it.
    pub strip_prefix: bool,
}

/// The settings of a subdirectory together with the configuration of its handler
#[derive(Debug, Clone, PartialEq, Eq)]
pub struct SubDirCombined<C> {
    /// The settings of the subdirectory
    pub subdir: SubDirConf,
    /// The configuration of the handler
    pub config: C,
}

/// Settings of a virtual host
#[derive(Debug, Clone, PartialEq, Eq)]
pub struct VirtualHostConf<C> {
    /// Other host names that the virtual host answers to
    pub aliases: Vec<String>,
    /// If `true`, the virtual host answers to requests that no other host answers to.
    pub default: bool,
    /// The subdirectories of the host that have a handler of their own, each by its
    /// path. Where a path occurs twice the later entry counts.
    pub subdirs: Vec<(String, SubDirCombined<C>)>,
}

/// The settings of a virtual host together with the configuration of its handler
#[derive(Debug, Clone, PartialEq, Eq)]
pub struct VirtualHostCombined<C> {
    /// The settings of the host
    pub host: VirtualHostConf<C>,
    /// The configuration of the handler
    pub config: C,
}

/// The configuration of the virtual hosts: each host by its name, in the order in which
/// they are set up. Where a name occurs twice the later entry counts.
#[derive(Debug, Clone, PartialEq, Eq)]
pub struct VirtualHostsConf<C> {
    /// The virtual hosts
    pub vhosts: Vec<(String, VirtualHostCombined<C>)>,
}

/// The bytes of a name, which hosts and paths are looked up by.
pub open spec fn bytes_of(name: String) -> Seq<u8> {
    encode_utf8(name@)
}

/// The routes of a host when the first `count` of its subdirectories were added to
/// `routes`: each under the host and its path, with its handler and the flag that tells
/// whether the path is to be stripped.
pub open spec fn subdir_routes<H>(
    routes: Map<Seq<u8>, (bool, H)>,
    host: Seq<u8>,
    subdirs: Seq<(String, SubDirCombined<H>)>,
    count: nat,
) -> Map<Seq<u8>, (bool, H)>
    decreases count,
{
    if count == 0 {
        routes
    } else {
        let (path, conf) = subdirs[count - 1];
        subdir_routes(routes, host, subdirs, (count - 1) as nat).insert(
            route_label(host, bytes_of(path)),
            (conf.subdir.strip_prefix, conf.config),
        )
    }
}

/// The routes when a host was added to `routes`: the handler of the host under the host
/// alone, never to strip anything, and the handlers of its subdirectories.
pub open spec fn host_routes<H>(
    routes: Map<Seq<u8>, (bool, H)>,
    name: String,
    conf: VirtualHostCombined<H>,
) -> Map<Seq<u8>, (bool, H)> {
    subdir_routes(
        routes.insert(route_label(bytes_of(name), Seq::empty()), (false, conf.config)),
        bytes_of(name),
        conf.host.subdirs@,
        conf.host.subdirs@.len(),
    )
}

/// The routes of the first `count` hosts.
pub open spec fn routes_of<H>(vhosts: Seq<(String, VirtualHostCombined<H>)>, count: nat) -> Map<
    Seq<u8>,
    (bool, H),
>
    decreases count,
{
    if count == 0 {
        Map::empty()
    } else {
        host_routes(
            routes_of(vhosts, (count - 1) as nat),
            vhosts[count - 1].0,
            vhosts[count - 1].1,
        )
    }
}

/// The aliases when the first `count` aliases of a host were added to `aliases`.
pub open spec fn host_aliases(
    aliases: Map<Seq<u8>, Seq<u8>>,
    host: Seq<u8>,
    names: Seq<String>,
    count: nat,
) -> Map<Seq<u8>, Seq<u8>>
    decreases count,
{
    if count == 0 {
        aliases
    } else {
        host_aliases(aliases, host, names, (count - 1) as nat).insert(
            bytes_of(names[count - 1]),
            host,
        )
    }
}

/// The aliases of the first `count` hosts, each with the host that it stands for.
pub open spec fn aliases_of<H>(vhosts: Seq<(String, VirtualHostCombined<H>)>, count: nat) -> Map<
    Seq<u8>,
    Seq<u8>,
>
    decreases count,
{
    if count == 0 {
        Map::empty()
    } else {
        host_aliases(
            aliases_of(vhosts, (count - 1) as nat),
            bytes_of(vhosts[count - 1].0),
            vhosts[count - 1].1.host.aliases@,
            vhosts[count - 1].1.host.aliases@.len(),
        )
    }
}

/// The default host among the first `count` hosts: the first that is marked as default.
pub open spec fn default_of<H>(vhosts: Seq<(String, VirtualHostCombined<H>)>, count: nat) -> Option<
    Seq<u8>,
>
    decreases count,
{
    if count == 0 {
        None
    } else {
        match default_of(vhosts, (count - 1) as nat) {
            Some(host) => Some(host),
            None => if vhosts[count - 1].1.host.default {
                Some(bytes_of(vhosts[count - 1].0))
            } else {
                None
            },
        }
    }
}

/// The hosts among the first `count` that are marked as default in vain, as a host
/// before them is the default.
pub open spec fn ignored_defaults<H>(
    vhosts: Seq<(String, VirtualHostCombined<H>)>,
    count: nat,
) -> Seq<String>
    decreases count,
{
    if count == 0 {
        Seq::empty()
    } else {
        let before = ignored_defaults(vhosts, (count - 1) as nat);
        if vhosts[count - 1].1.host.default && default_of(vhosts, (count - 1) as nat) is Some {
            before.push(vhosts[count - 1].0)
        } else {
            before
        }
    }
}

/// An upper bound of what the first `count` subdirectories of a host add to the sizes
/// that setting up a router keeps count of.
pub open spec fn subdirs_weight<H>(
    host: nat,
    subdirs: Seq<(String, SubDirCombined<H>)>,
    count: nat,
) -> nat
    decreases count,
{
    if count == 0 {
        0
    } else {
        subdirs_weight(host, subdirs, (count - 1) as nat) + host + bytes_of(
            subdirs[count - 1].0,
        ).len() + 3
    }
}

/// An upper bound of what the first `count` hosts add to the sizes that setting up a
/// router keeps count of: for each host and each subdirectory the length of the host name
/// and of the path, and three more.
pub open spec fn weight_of<H>(vhosts: Seq<(String, VirtualHostCombined<H>)>, count: nat) -> nat
    decreases count,
{
    if count == 0 {
        0
    } else {
        weight_of(vhosts, (count - 1) as nat) + bytes_of(vhosts[count - 1].0).len() + 3
            + subdirs_weight(
            bytes_of(vhosts[count - 1].0).len(),
            vhosts[count - 1].1.host.subdirs@,
            vhosts[count - 1].1.host.subdirs@.len(),
        )
    }
}

/// The weight of subdirectories grows with their number.
pub proof fn lemma_subdirs_weight_grows<H>(
    host: nat,
    subdirs: Seq<(String, SubDirCombined<H>)>,
    few: nat,
    many: nat,
)
    requires
        few <= many,
    ensures
        subdirs_weight(host, subdirs, few) <= subdirs_weight(host, subdirs, many),
    decreases many,
{
    if few < many {
        lemma_subdirs_weight_grows(host, subdirs, few, (many - 1) as nat);
    }
}

/// The weight of hosts grows with their number.
pub proof fn lemma_weight_grows<H>(
    vhosts: Seq<(String, VirtualHostCombined<H>)>,
    few: nat,
    many: nat,
)
    requires
        few <= many,
    ensures
        weight_of(vhosts, few) <= weight_of(vhosts, many),
    decreases many,
{
    if few < many {
        lemma_weight_grows(vhosts, few, (many - 1) as nat);
    }
}

/// Whether `converted` is the subdirectory `subdir` with a handler in place of the
/// configuration of the handler: the one that the configuration converts into, as far as
/// the conversion keeps to its specification.
pub open spec fn subdir_converted<C: TryInto<H>, H>(
    subdir: (String, SubDirCombined<C>),
    converted: (String, SubDirCombined<H>),
) -> bool {
    &&& converted.0 == subdir.0
    &&& converted.1.subdir == subdir.1.subdir
    &&& C::obeys_try_into_spec() ==> subdir.1.config.try_into_spec() == Ok::<H, C::Error>(
        converted.1.config,
    )
}

/// Whether `converted` is the host `host` with handlers in place of the configurations
/// of handlers, its own and those of its subdirectories.
pub open spec fn host_converted<C: TryInto<H>, H>(
    host: (String, VirtualHostCombined<C>),
    converted: (String, VirtualHostCombined<H>),
) -> bool {
    &&& converted.0 == host.0
    &&& converted.1.host.aliases == host.1.host.aliases
    &&& converted.1.host.default == host.1.host.default
    &&& C::obeys_try_into_spec() ==> host.1.config.try_into_spec() == Ok::<H, C::Error>(
        converted.1.config,
    )
    &&& converted.1.host.subdirs@.len() == host.1.host.subdirs@.len()
    &&& forall|j: int|
        0 <= j < host.1.host.subdirs@.len() ==> subdir_converted(
            host.1.host.subdirs@[j],
            #[trigger] converted.1.host.subdirs@[j],
        )
}

/// Whether `converted` is the configuration `conf` with handlers in place of the
/// configurations of handlers.
pub open spec fn conf_converted<C: TryInto<H>, H>(
    conf: VirtualHostsConf<C>,
    converted: VirtualHostsConf<H>,
) -> bool {
    &&& converted.vhosts@.len() == conf.vhosts@.len()
    &&& forall|i: int|
        0 <= i < conf.vhosts@.len() ==> host_converted(
            conf.vhosts@[i],
            #[trigger] converted.vhosts@[i],
        )
}

/// Whether the configurations of the handlers of the first `count` subdirectories
/// convert into handlers.
pub open spec fn subdirs_convert<C: TryInto<H>, H>(
    subdirs: Seq<(String, SubDirCombined<C>)>,
    count: int,
) -> bool {
    forall|j: int|
        0 <= j < count && j < subdirs.len() ==> (#[trigger] subdirs[j]).1.config.try_into_spec() is Ok
}

/// Whether the configurations of the handlers of the host convert into handlers, that of
/// the host itself and those of its subdirectories.
pub open spec fn host_converts<C: TryInto<H>, H>(host: (String, VirtualHostCombined<C>)) -> bool {
    host.1.config.try_into_spec() is Ok && subdirs_convert::<C, H>(
        host.1.host.subdirs@,
        host.1.host.subdirs@.len() as int,
    )
}

/// Whether the conversion of the subdirectory at `at` is the first among those of the
/// subdirectories to fail, and fails with `error`.
pub open spec fn subdir_fails_first<C: TryInto<H>, H>(
    subdirs: Seq<(String, SubDirCombined<C>)>,
    at: int,
    error: C::Error,
) -> bool {
    &&& 0 <= at < subdirs.len()
    &&& subdirs[at].1.config.try_into_spec() == Err::<H, C::Error>(error)
    &&& subdirs_convert::<C, H>(subdirs, at)
}

/// Whether `error` is the error of the first conversion that fails for the host, where
/// the configuration of the host itself goes before those of its subdirectories.
pub open spec fn host_fails<C: TryInto<H>, H>(
    host: (String, VirtualHostCombined<C>),
    error: C::Error,
) -> bool {
    ||| host.1.config.try_into_spec() == Err::<H, C::Error>(error)
    ||| host.1.config.try_into_spec() is Ok && exists|at: int|
        subdir_fails_first::<C, H>(host.1.host.subdirs@, at, error)
}

/// Whether the configurations of all handlers of the first `count` hosts convert into
/// handlers.
pub open spec fn hosts_convert<C: TryInto<H>, H>(
    vhosts: Seq<(String, VirtualHostCombined<C>)>,
    count: int,
) -> bool {
    forall|i: int| 0 <= i < count && i < vhosts.len() ==> host_converts::<C, H>(#[trigger] vhosts[i])
}

/// Whether the host at `at` is the first with a conversion that fails, and the first
/// conversion that fails for it fails with `error`.
pub open spec fn host_fails_first<C: TryInto<H>, H>(
    vhosts: Seq<(String, VirtualHostCombined<C>)>,
    at: int,
    error: C::Error,
) -> bool {
    &&& 0 <= at < vhosts.len()
    &&& host_fails::<C, H>(vhosts[at], error)
    &&& hosts_convert::<C, H>(vhosts, at)
}

/// Whether `error` is the error of the first conversion that fails, in the order of the
/// hosts and, for each host, of its own configuration and those of its subdirectories.
pub open spec fn conf_fails<C: TryInto<H>, H>(conf: VirtualHostsConf<C>, error: C::Error) -> bool {
    exists|at: int| host_fails_first::<C, H>(conf.vhosts@, at, error)
}

/// Where a configuration was converted, the conversion of every handler succeeded, as
/// far as the conversion keeps to its specification.
pub proof fn lemma_converted_converts<C: TryInto<H>, H>(
    conf: VirtualHostsConf<C>,
    converted: VirtualHostsConf<H>,
)
    requires
        conf_converted(conf, converted),
        C::obeys_try_into_spec(),
    ensures
        hosts_convert::<C, H>(conf.vhosts@, conf.vhosts@.len() as int),
{
    assert forall|i: int| 0 <= i < conf.vhosts@.len() implies host_converts::<C, H>(
        #[trigger] conf.vhosts@[i],
    ) by {
        let host = conf.vhosts@[i];
        let other = converted.vhosts@[i];
        assert(host_converted(host, other));
        assert forall|j: int| 0 <= j < host.1.host.subdirs@.len() implies (
        #[trigger] host.1.host.subdirs@[j]).1.config.try_into_spec() is Ok by {
            assert(subdir_converted(host.1.host.subdirs@[j], other.1.host.subdirs@[j]));
        }
    }
}

/// Subdirectories weigh the same whatever stands for their handlers.
pub proof fn lemma_subdirs_weight_converted<C: TryInto<H>, H>(
    host: nat,
    subdirs: Seq<(String, SubDirCombined<C>)>,
    converted: Seq<(String, SubDirCombined<H>)>,
    count: nat,
)
    requires
        count <= subdirs.len(),
        converted.len() == subdirs.len(),
        forall|j: int| 0 <= j < subdirs.len() ==> subdir_converted(subdirs[j], #[trigger] converted[j]),
    ensures
        subdirs_weight(host, converted, count) == subdirs_weight(host, subdirs, count),
    decreases count,
{
    if count > 0 {
        lemma_subdirs_weight_converted(host, subdirs, converted, (count - 1) as nat);
        assert(subdir_converted(subdirs[count - 1], converted[count - 1]));
    }
}

/// A configuration weighs the same whatever stands for its handlers.
pub proof fn lemma_weight_converted<C: TryInto<H>, H>(
    conf: VirtualHostsConf<C>,
    converted: VirtualHostsConf<H>,
    count: nat,
)
    requires
        conf_converted(conf, converted),
        count <= conf.vhosts@.len(),
    ensures
        weight_of(converted.vhosts@, count) == weight_of(conf.vhosts@, count),
    decreases count,
{
    if count > 0 {
        lemma_weight_converted(conf, converted, (count - 1) as nat);
        let host = conf.vhosts@[count - 1];
        let other = converted.vhosts@[count - 1];
        assert(host_converted(host, other));
        lemma_subdirs_weight_converted(
            bytes_of(host.0).len(),
            host.1.host.subdirs@,
            other.1.host.subdirs@,
            host.1.host.subdirs@.len(),
        );
    }
}

impl<C> VirtualHostsConf<C> {
    /// Converts the configuration of every handler into the handler, and fails with the
    /// error of the first conversion that fails: for each host the configuration of the
    /// host goes before those of its subdirectories. All else stays as it is.
    pub fn convert<H>(self) -> (result: Result<VirtualHostsConf<H>, C::Error>) where C: TryInto<H>
        ensures
            match result {
                Ok(converted) => conf_converted(self, converted),
                Err(error) => C::obeys_try_into_spec() ==> conf_fails::<C, H>(self, error),
            },
    {
        let ghost all = self.vhosts@;
        let mut vhosts: Vec<(String, VirtualHostCombined<H>)> = Vec::new();
        for entry in hosts: self.vhosts
            invariant
                hosts.seq() == all,
                all == self.vhosts@,
                vhosts@.len() == hosts.index(),
                forall|i: int|
                    0 <= i < hosts.index() ==> host_converted(all[i], #[trigger] vhosts@[i]),
                C::obeys_try_into_spec() ==> hosts_convert::<C, H>(all, hosts.index() as int),
        {
            let ghost at = hosts.index() as int;
            let ghost host = entry;
            proof {
                assert(entry == all[at]);
            }
            let (name, combined) = entry;
            let VirtualHostCombined { host: settings, config } = combined;
            let VirtualHostConf { aliases, default, subdirs } = settings;
            let handler: H = match config.try_into() {
                Ok(handler) => handler,
                Err(error) => {
                    proof {
                        if C::obeys_try_into_spec() {
                            assert(host_fails_first::<C, H>(all, at, error));
                        }
                    }
                    return Err(error);
                },
            };
            let ghost paths = subdirs@;
            let mut converted: Vec<(String, SubDirCombined<H>)> = Vec::new();
            for subdir in list: subdirs
                invariant
                    list.seq() == paths,
                    paths == host.1.host.subdirs@,
                    host == all[at],
                    0 <= at < all.len(),
                    all == self.vhosts@,
                    converted@.len() == list.index(),
                    forall|j: int|
                        0 <= j < list.index() ==> subdir_converted(paths[j], #[trigger] converted@[j]),
                    C::obeys_try_into_spec() ==> hosts_convert::<C, H>(all, at),
                    C::obeys_try_into_spec() ==> host.1.config.try_into_spec() is Ok,
                    C::obeys_try_into_spec() ==> subdirs_convert::<C, H>(paths, list.index() as int),
            {
                let ghost place = list.index() as int;
                proof {
                    assert(subdir == paths[place]);
                }
                let (path, conf) = subdir;
                let SubDirCombined { subdir: settings, config } = conf;
                let handler: H = match config.try_into() {
                    Ok(handler) => handler,
                    Err(error) => {
                        proof {
                            if C::obeys_try_into_spec() {
                                assert(subdir_fails_first::<C, H>(paths, place, error));
                                assert(host_fails::<C, H>(all[at], error));
                                assert(host_fails_first::<C, H>(all, at, error));
                            }
                        }
                        return Err(error);
                    },
                };
                converted.push((path, SubDirCombined { subdir: settings, config: handler }));
            }
            proof {
                if C::obeys_try_into_spec() {
                    assert(host_converts::<C, H>(all[at]));
                }
            }
            vhosts.push(
                (
                    name,
                    VirtualHostCombined {
                        host: VirtualHostConf { aliases, default, subdirs: converted },
                        config: handler,
                    },
                ),
            );
        }
        Ok(VirtualHostsConf { vhosts })
    }
}

} // verus!
