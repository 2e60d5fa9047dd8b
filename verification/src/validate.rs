//! The rules for a whole configuration.

use vstd::prelude::*;

use crate::config::{Cluster, ClusterView, Config, ConfigView, ServiceView};
use crate::error::{ConfigError, ErrorView};
use crate::service;
use crate::text;

verus! {

/// Whether one of the services has a port of its own.
pub open spec fn has_local_port(services: Seq<ServiceView>) -> bool {
    exists|i: int| 0 <= i < services.len() && (#[trigger] services[i]).local_port is Some
}

/// The first thing that is wrong with the cluster of a name. The services of the cluster
/// `all` are shared by all others, so it has no kube context, and they have no port of their
/// own: each cluster would claim it.
pub open spec fn cluster_fault(name: Seq<char>, cluster: ClusterView) -> Option<ErrorView> {
    let services = service::services_fault("clusters."@ + name, cluster.services);
    if name == "all"@ {
        if cluster.context is Some {
            Some(ErrorView::AllWithContext)
        } else if has_local_port(cluster.services) {
            Some(ErrorView::AllWithLocalPort)
        } else {
            services
        }
    } else if !service::is_label(name) {
        Some(ErrorView::Label { field: "cluster key"@ })
    } else {
        match cluster.context {
            None => Some(ErrorView::MissingContext { cluster: name }),
            Some(context) => if text::blank(context) {
                Some(ErrorView::EmptyContext { cluster: name })
            } else {
                services
            },
        }
    }
}

/// The first thing that is wrong with the clusters.
pub open spec fn clusters_fault(clusters: Seq<(Seq<char>, ClusterView)>) -> Option<ErrorView>
    decreases clusters.len(),
{
    if clusters.len() == 0 {
        None
    } else {
        match clusters_fault(clusters.drop_last()) {
            Some(e) => Some(e),
            None => cluster_fault(clusters.last().0, clusters.last().1),
        }
    }
}

impl ConfigView {
    /// The first thing that is wrong with the configuration.
    pub open spec fn fault(self) -> Option<ErrorView> {
        if self.port == 0 {
            Some(ErrorView::ProxyPort)
        } else {
            clusters_fault(self.clusters)
        }
    }
}

/// A fault among the first clusters is the fault of them all.
proof fn lemma_first_fault(clusters: Seq<(Seq<char>, ClusterView)>, n: int)
    requires
        0 <= n <= clusters.len(),
    ensures
        clusters_fault(clusters.take(n)) is Some ==> clusters_fault(clusters) == clusters_fault(
            clusters.take(n),
        ),
    decreases clusters.len(),
{
    if n == clusters.len() {
        assert(clusters.take(n) =~= clusters);
    } else {
        assert(clusters.drop_last().take(n) =~= clusters.take(n));
        lemma_first_fault(clusters.drop_last(), n);
    }
}

/// Whether one of the services of a cluster has a port of its own.
fn any_local_port(cluster: &Cluster) -> (b: bool)
    ensures
        b == has_local_port(cluster@.services),
{
    let n: usize = cluster.services.len();
    for i in 0..n
        invariant
            n == cluster.services@.len(),
            forall|j: int| 0 <= j < i ==> (#[trigger] cluster@.services[j]).local_port is None,
    {
        assert(cluster@.services[i as int] == cluster.services@[i as int]@);
        if cluster.services[i].local_port.is_some() {
            return true;
        }
    }
    false
}

/// Refuses a cluster for the first thing that is wrong with it.
fn validate_cluster(name: &str, cluster: &Cluster) -> (r: Result<(), ConfigError>)
    ensures
        service::reports(r, cluster_fault(name@, cluster@)),
{
    if text::same(name, "all") {
        if cluster.context.is_some() {
            return Err(ConfigError::AllWithContext);
        }
        if any_local_port(cluster) {
            return Err(ConfigError::AllWithLocalPort);
        }
    } else {
        if let Err(e) = service::validate_label("cluster key", name) {
            return Err(e);
        }
        match &cluster.context {
            None => return Err(ConfigError::MissingContext { cluster: name.to_owned() }),
            Some(context) => {
                if text::is_blank(context.as_str()) {
                    return Err(ConfigError::EmptyContext { cluster: name.to_owned() });
                }
            },
        }
    }
    let scope = "clusters.".to_owned().concat(name);
    service::validate_services(scope.as_str(), &cluster.services)
}

impl Config {
    /// Refuses a configuration for the first thing that is wrong with it.
    pub fn validate(&self) -> (r: Result<(), ConfigError>)
        ensures
            service::reports(r, self@.fault()),
    {
        if self.proxy.port == 0 {
            return Err(ConfigError::ProxyPort);
        }
        let ghost clusters = self.clusters@;
        let n: usize = self.clusters.len();
        assert(clusters.take(0) =~= Seq::<(Seq<char>, ClusterView)>::empty());
        for i in 0..n
            invariant
                n == clusters.len(),
                clusters == self.clusters@,
                self.proxy.port != 0,
                clusters_fault(clusters.take(i as int)) is None,
        {
            assert(clusters.take(i + 1).drop_last() =~= clusters.take(i as int));
            proof {
                lemma_first_fault(clusters, i + 1);
            }
            if let Err(e) = validate_cluster(
                self.clusters.name_at(i),
                self.clusters.cluster_at(i),
            ) {
                return Err(e);
            }
        }
        assert(clusters.take(n as int) =~= clusters);
        Ok(())
    }
}

} // verus!
