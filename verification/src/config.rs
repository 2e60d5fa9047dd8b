//! The configuration: clusters, the services in them, and the routes that follow.

use vstd::prelude::*;

use crate::order;
use crate::text;

verus! {

/// The port on which the proxy listens unless the configuration names another.
pub const DEFAULT_PROXY_PORT: u16 = 1355;

/// The port on which the proxy listens unless the configuration names another.
pub fn default_proxy_port() -> (port: u16)
    ensures
        port == DEFAULT_PROXY_PORT,
{
    DEFAULT_PROXY_PORT
}

/// The whole configuration.
#[derive(Debug)]
pub struct Config {
    pub schema: Option<String>,
    pub proxy: ProxyConfig,
    pub contexts: ContextsConfig,
    pub clusters: Clusters,
}

/// How the proxy is reached.
#[derive(Debug)]
pub struct ProxyConfig {
    pub port: u16,
}

/// Which kube contexts are left alone.
#[derive(Debug)]
pub struct ContextsConfig {
    pub ignore: Vec<String>,
}

/// A cluster: the kube context that reaches it, and its services.
#[derive(Debug)]
pub struct Cluster {
    pub context: Option<String>,
    pub services: Vec<Service>,
}

/// A service, and what in the cluster stands behind it.
#[derive(Debug)]
pub struct Service {
    pub name: Option<String>,
    pub namespace: String,
    pub remote_port: u16,
    /// The port on which the service is relayed byte for byte, past the proxy.
    pub local_port: Option<u16>,
    pub target: Option<String>,
    pub service: Option<String>,
    pub pod: Option<String>,
}

/// A forward: the route by which it is known, and what `kubectl` needs to set it up.
#[derive(Debug)]
pub struct ForwardSpec {
    pub route: String,
    pub context: String,
    pub namespace: String,
    pub target: String,
    pub remote_port: u16,
    pub local_port: Option<u16>,
}

impl Clone for ForwardSpec {
    fn clone(&self) -> (r: Self)
        ensures
            r@ == self@,
    {
        ForwardSpec {
            route: self.route.clone(),
            context: self.context.clone(),
            namespace: self.namespace.clone(),
            target: self.target.clone(),
            remote_port: self.remote_port,
            local_port: self.local_port,
        }
    }
}

/// The mathematical counterpart of [`Service`].
pub struct ServiceView {
    pub name: Option<Seq<char>>,
    pub namespace: Seq<char>,
    pub remote_port: u16,
    pub local_port: Option<u16>,
    pub target: Option<Seq<char>>,
    pub service: Option<Seq<char>>,
    pub pod: Option<Seq<char>>,
}

/// The mathematical counterpart of [`Cluster`].
pub struct ClusterView {
    pub context: Option<Seq<char>>,
    pub services: Seq<ServiceView>,
}

/// The mathematical counterpart of [`Config`]. The clusters stand by rising name.
pub struct ConfigView {
    pub schema: Option<Seq<char>>,
    pub port: u16,
    pub ignore: Seq<Seq<char>>,
    pub clusters: Seq<(Seq<char>, ClusterView)>,
}

/// The mathematical counterpart of [`ForwardSpec`].
pub struct ForwardView {
    pub route: Seq<char>,
    pub context: Seq<char>,
    pub namespace: Seq<char>,
    pub target: Seq<char>,
    pub remote_port: u16,
    pub local_port: Option<u16>,
}

/// The characters of an optional text.
pub open spec fn text_view(s: Option<String>) -> Option<Seq<char>> {
    match s {
        Some(t) => Some(t@),
        None => None,
    }
}

/// The characters of each text.
pub open spec fn texts_view(s: Seq<String>) -> Seq<Seq<char>> {
    s.map_values(|t: String| t@)
}

/// The counterparts of services.
pub open spec fn services_view(s: Seq<Service>) -> Seq<ServiceView> {
    s.map_values(|x: Service| x@)
}

/// The counterparts of forwards.
pub open spec fn forwards_view(s: Seq<ForwardSpec>) -> Seq<ForwardView> {
    s.map_values(|x: ForwardSpec| x@)
}

impl View for Service {
    type V = ServiceView;

    open spec fn view(&self) -> ServiceView {
        ServiceView {
            name: text_view(self.name),
            namespace: self.namespace@,
            remote_port: self.remote_port,
            local_port: self.local_port,
            target: text_view(self.target),
            service: text_view(self.service),
            pod: text_view(self.pod),
        }
    }
}

impl View for Cluster {
    type V = ClusterView;

    open spec fn view(&self) -> ClusterView {
        ClusterView { context: text_view(self.context), services: services_view(self.services@) }
    }
}

impl View for Config {
    type V = ConfigView;

    open spec fn view(&self) -> ConfigView {
        ConfigView {
            schema: text_view(self.schema),
            port: self.proxy.port,
            ignore: texts_view(self.contexts.ignore@),
            clusters: self.clusters@,
        }
    }
}

impl View for ForwardSpec {
    type V = ForwardView;

    open spec fn view(&self) -> ForwardView {
        ForwardView {
            route: self.route@,
            context: self.context@,
            namespace: self.namespace@,
            target: self.target@,
            remote_port: self.remote_port,
            local_port: self.local_port,
        }
    }
}

/// The clusters of a configuration by name: no name stands twice, and names rise.
#[derive(Debug)]
pub struct Clusters {
    entries: Vec<(String, Cluster)>,
}

/// Whether the names of `entries` rise.
pub open spec fn names_rise(entries: Seq<(Seq<char>, ClusterView)>) -> bool {
    forall|i: int, j: int|
        0 <= i < j < entries.len() ==> order::text_lt(
            (#[trigger] entries[i]).0,
            (#[trigger] entries[j]).0,
        )
}

/// What stands under `name`.
pub open spec fn lookup(entries: Seq<(Seq<char>, ClusterView)>, name: Seq<char>) -> Option<
    ClusterView,
>
    decreases entries.len(),
{
    if entries.len() == 0 {
        None
    } else if entries[0].0 == name {
        Some(entries[0].1)
    } else {
        lookup(entries.drop_first(), name)
    }
}

/// The entries with a cluster under a name, in place of the one that stood there, or else
/// before the first greater name.
pub open spec fn inserted(
    entries: Seq<(Seq<char>, ClusterView)>,
    name: Seq<char>,
    cluster: ClusterView,
) -> Seq<(Seq<char>, ClusterView)>
    decreases entries.len(),
{
    if entries.len() == 0 {
        seq![(name, cluster)]
    } else if entries[0].0 == name {
        entries.update(0, (name, cluster))
    } else if order::text_le(name, entries[0].0) {
        seq![(name, cluster)] + entries
    } else {
        seq![entries[0]] + inserted(entries.drop_first(), name, cluster)
    }
}

/// Where a cluster is put, if all names before are less than its name and none after is.
proof fn lemma_inserted(
    entries: Seq<(Seq<char>, ClusterView)>,
    name: Seq<char>,
    cluster: ClusterView,
    at: int,
)
    requires
        0 <= at <= entries.len(),
        forall|i: int|
            0 <= i < at ==> !order::text_le(name, (#[trigger] entries[i]).0) && entries[i].0
                != name,
        at < entries.len() ==> order::text_le(name, entries[at].0),
    ensures
        inserted(entries, name, cluster) == if at < entries.len() && entries[at].0 == name {
            entries.update(at, (name, cluster))
        } else {
            entries.insert(at, (name, cluster))
        },
    decreases at,
{
    if at > 0 {
        assert(entries[0].0 != name);
        let rest = entries.drop_first();
        lemma_inserted(rest, name, cluster, at - 1);
        let tail = inserted(rest, name, cluster);
        assert(inserted(entries, name, cluster) == seq![entries[0]] + tail);
    }
    assert(inserted(entries, name, cluster) =~= if at < entries.len() && entries[at].0 == name {
        entries.update(at, (name, cluster))
    } else {
        entries.insert(at, (name, cluster))
    });
}

/// A name that stands nowhere leads to nothing, and one that stands somewhere leads there
/// if nothing before bears it.
proof fn lemma_lookup(entries: Seq<(Seq<char>, ClusterView)>, name: Seq<char>, at: int)
    requires
        0 <= at <= entries.len(),
        forall|i: int| 0 <= i < at ==> (#[trigger] entries[i]).0 != name,
    ensures
        at == entries.len() ==> lookup(entries, name) is None,
        at < entries.len() && entries[at].0 == name ==> lookup(entries, name) == Some(
            entries[at].1,
        ),
    decreases entries.len(),
{
    if entries.len() > 0 && at > 0 {
        assert(entries[0].0 != name);
        lemma_lookup(entries.drop_first(), name, at - 1);
    }
}

/// Where names rise, a name leads to every entry that bears it.
pub proof fn lemma_lookup_rising(entries: Seq<(Seq<char>, ClusterView)>, at: int)
    requires
        names_rise(entries),
        0 <= at < entries.len(),
    ensures
        lookup(entries, entries[at].0) == Some(entries[at].1),
{
    assert forall|i: int| 0 <= i < at implies (#[trigger] entries[i]).0 != entries[at].0 by {
        assert(order::text_lt(entries[i].0, entries[at].0));
    }
    lemma_lookup(entries, entries[at].0, at);
}

/// A name that leads somewhere stands there.
pub proof fn lemma_lookup_found(entries: Seq<(Seq<char>, ClusterView)>, name: Seq<char>) -> (at: int)
    requires
        lookup(entries, name) is Some,
    ensures
        0 <= at < entries.len(),
        entries[at] == (name, lookup(entries, name).unwrap()),
    decreases entries.len(),
{
    if entries[0].0 == name {
        0
    } else {
        lemma_lookup_found(entries.drop_first(), name) + 1
    }
}

impl View for Clusters {
    type V = Seq<(Seq<char>, ClusterView)>;

    closed spec fn view(&self) -> Seq<(Seq<char>, ClusterView)> {
        self.entries@.map_values(|e: (String, Cluster)| (e.0@, e.1@))
    }
}

impl Clusters {
    /// Whether no name stands twice, and names rise.
    pub open spec fn wf(&self) -> bool {
        names_rise(self@)
    }

    /// No clusters.
    pub fn new() -> (r: Self)
        ensures
            r.wf(),
            r@ == Seq::<(Seq<char>, ClusterView)>::empty(),
    {
        let r = Clusters { entries: Vec::new() };
        assert(r@ =~= Seq::<(Seq<char>, ClusterView)>::empty());
        r
    }

    /// How many clusters there are.
    pub fn len(&self) -> (n: usize)
        ensures
            n == self@.len(),
    {
        self.entries.len()
    }

    /// The name of the cluster at a position.
    pub fn name_at(&self, at: usize) -> (name: &str)
        requires
            at < self@.len(),
        ensures
            name@ == self@[at as int].0,
    {
        self.entries[at].0.as_str()
    }

    /// The cluster at a position.
    pub fn cluster_at(&self, at: usize) -> (cluster: &Cluster)
        requires
            at < self@.len(),
        ensures
            cluster@ == self@[at as int].1,
    {
        &self.entries[at].1
    }

    /// The cluster of a name.
    pub fn get(&self, name: &str) -> (r: Option<&Cluster>)
        ensures
            r is Some <==> lookup(self@, name@) is Some,
            r matches Some(cluster) ==> lookup(self@, name@) == Some(cluster@),
    {
        let n: usize = self.len();
        for i in 0..n
            invariant
                n == self@.len(),
                forall|j: int| 0 <= j < i ==> (#[trigger] self@[j]).0 != name@,
        {
            if text::same(self.name_at(i), name) {
                proof {
                    lemma_lookup(self@, name@, i as int);
                }
                return Some(self.cluster_at(i));
            }
        }
        proof {
            lemma_lookup(self@, name@, n as int);
        }
        None
    }

    /// Puts a cluster under a name, and hands back the one that stood there.
    pub fn insert(&mut self, name: String, cluster: Cluster) -> (r: Option<Cluster>)
        requires
            old(self).wf(),
        ensures
            final(self).wf(),
            final(self)@ == inserted(old(self)@, name@, cluster@),
            forall|m: Seq<char>| #[trigger]
                lookup(final(self)@, m) == if m == name@ {
                    Some(cluster@)
                } else {
                    lookup(old(self)@, m)
                },
            r is Some <==> lookup(old(self)@, name@) is Some,
            r matches Some(c) ==> lookup(old(self)@, name@) == Some(c@),
    {
        let ghost before = self@;
        proof {
            order::text_order();
        }
        let ghost le = |a: Seq<char>, b: Seq<char>| order::text_le(a, b);
        let n: usize = self.len();
        let mut at: usize = 0;
        while at < n && !order::text_before(name.as_str(), self.name_at(at))
            invariant
                n == self@.len(),
                at <= n,
                forall|j: int| 0 <= j < at ==> !order::text_le(name@, (#[trigger] self@[j]).0),
            decreases n - at,
        {
            at = at + 1;
        }
        assert(forall|j: int| 0 <= j < at ==> !le(name@, (#[trigger] before[j]).0));
        assert(forall|j: int| 0 <= j < at ==> le((#[trigger] before[j]).0, name@));
        let replaced = at < n && text::same(self.name_at(at), name.as_str());
        assert forall|j: int| 0 <= j < at implies (#[trigger] before[j]).0 != name@ by {
            assert(le(name@, name@));
        }
        let r = if replaced {
            Some(self.entries.remove(at).1)
        } else {
            None
        };
        let ghost view = (name@, cluster@);
        self.entries.insert(at, (name, cluster));
        proof {
            let rest = if replaced {
                before.remove(at as int)
            } else {
                before
            };
            assert(self@ =~= rest.insert(at as int, view));
            lemma_inserted(before, view.0, view.1, at as int);
            assert(replaced ==> self@ =~= before.update(at as int, view));
            assert forall|i: int, j: int| 0 <= i < j < self@.len() implies order::text_lt(
                (#[trigger] self@[i]).0,
                (#[trigger] self@[j]).0,
            ) by {
                let k = if replaced || j < at {
                    j
                } else {
                    j - 1
                };
                if i < at && j == at {
                    assert(self@[i] == before[i]);
                    assert(le(before[i].0, name@));
                } else if i == at {
                    assert(self@[j] == before[k]);
                    assert(order::text_le(name@, before[at as int].0));
                    if k > at {
                        assert(order::text_lt(before[at as int].0, before[k].0));
                        assert(le(name@, before[at as int].0) && le(before[at as int].0, before[k].0));
                        assert(le(name@, before[k].0));
                        if name@ == before[k].0 {
                            assert(le(before[k].0, before[at as int].0));
                        }
                    }
                } else {
                    let h = if replaced || i < at {
                        i
                    } else {
                        i - 1
                    };
                    assert(self@[i] == before[h]);
                    assert(self@[j] == before[k]);
                }
            }
            assert forall|m: Seq<char>| #[trigger]
                lookup(self@, m) == if m == view.0 {
                    Some(view.1)
                } else {
                    lookup(before, m)
                } by {
                if m == view.0 {
                    assert(self@[at as int].0 == m);
                    lemma_lookup_rising(self@, at as int);
                } else {
                    if lookup(before, m) is Some {
                        let i = lemma_lookup_found(before, m);
                        let j = if replaced || i < at {
                            i
                        } else {
                            i + 1
                        };
                        assert(self@[j] == before[i]);
                        lemma_lookup_rising(self@, j);
                    }
                    if lookup(self@, m) is Some {
                        let j = lemma_lookup_found(self@, m);
                        assert(j != at);
                        let i = if replaced || j < at {
                            j
                        } else {
                            j - 1
                        };
                        assert(self@[j] == before[i]);
                        lemma_lookup_rising(before, i);
                    }
                }
            }
            if replaced {
                assert(before[at as int].0 == view.0);
                lemma_lookup_rising(before, at as int);
            } else {
                if lookup(before, view.0) is Some {
                    let i = lemma_lookup_found(before, view.0);
                    assert(i != at);
                    assert(i > at);
                    assert(order::text_lt(before[at as int].0, before[i].0));
                    assert(le(view.0, before[at as int].0));
                    assert(le(before[at as int].0, view.0));
                    assert(false);
                }
            }
        }
        r
    }
}

impl Default for Clusters {
    fn default() -> (r: Self)
        ensures
            r.wf(),
            r@ == Seq::<(Seq<char>, ClusterView)>::empty(),
    {
        Clusters::new()
    }
}

impl Default for ProxyConfig {
    fn default() -> (r: Self)
        ensures
            r.port == DEFAULT_PROXY_PORT,
    {
        ProxyConfig { port: default_proxy_port() }
    }
}

impl Default for ContextsConfig {
    fn default() -> (r: Self)
        ensures
            r.ignore@ == Seq::<String>::empty(),
    {
        ContextsConfig { ignore: Vec::new() }
    }
}

impl Default for Cluster {
    fn default() -> (r: Self)
        ensures
            r.context is None,
            r.services@ == Seq::<Service>::empty(),
    {
        Cluster { context: None, services: Vec::new() }
    }
}

impl Default for Config {
    fn default() -> (r: Self)
        ensures
            r.schema is None,
            r.proxy.port == DEFAULT_PROXY_PORT,
            r.contexts.ignore@ == Seq::<String>::empty(),
            r.clusters.wf(),
            r.clusters@ == Seq::<(Seq<char>, ClusterView)>::empty(),
    {
        Config {
            schema: None,
            proxy: ProxyConfig::default(),
            contexts: ContextsConfig::default(),
            clusters: Clusters::new(),
        }
    }
}

} // verus!
