//! Laws of validation: which configurations are valid, and what the others are refused for.

use vstd::prelude::*;

use crate::config::{ClusterView, ConfigView, ServiceView};
use crate::error::ErrorView;
use crate::laws::configuration;
use crate::service;
use crate::text;
use crate::validate;

verus! {

/// Whether a service can be forwarded to: it has a label for a name, a namespace, a port and a
/// target.
pub open spec fn usable(s: ServiceView) -> bool {
    &&& s.label() is Ok
    &&& service::is_label(s.label()->Ok_0)
    &&& text::trim(s.namespace).len() > 0
    &&& s.remote_port != 0
    &&& s.kubectl_target() is Ok
}

/// Whether the services of a cluster can be forwarded to, and no two have the same name.
pub open spec fn usable_together(services: Seq<ServiceView>) -> bool {
    &&& forall|i: int| 0 <= i < services.len() ==> usable(#[trigger] services[i])
    &&& forall|i: int, j: int|
        0 <= i < services.len() && 0 <= j < services.len() && i != j ==> (
        #[trigger] services[i]).label() != (#[trigger] services[j]).label()
}

/// Whether a cluster may stand under a name: `all` has no context and no service with a port of
/// its own; any other has a label for a name, and a context that is not blank.
pub open spec fn sound(name: Seq<char>, cluster: ClusterView) -> bool {
    &&& name == "all"@ ==> {
        &&& cluster.context is None
        &&& forall|i: int|
            0 <= i < cluster.services.len() ==> (#[trigger] cluster.services[i]).local_port is None
    }
    &&& name != "all"@ ==> {
        &&& service::is_label(name)
        &&& cluster.context is Some
        &&& text::trim(cluster.context->0).len() > 0
    }
    &&& usable_together(cluster.services)
}

/// Nothing is wrong with services if and only if each can be forwarded to and no two have the
/// same name.
pub proof fn faultless_services_are_usable_together(scope: Seq<char>, services: Seq<ServiceView>)
    ensures
        service::services_fault(scope, services) is None <==> usable_together(services),
    decreases services.len(),
{
    if service::services_fault(scope, services) is None {
        configuration::faultless_services(scope, services);
        assert forall|i: int| 0 <= i < services.len() implies usable(#[trigger] services[i]) by {
            assert(services[i].label() is Ok);
            crate::laws::texts::blank_texts_are_trimmed_to_nothing(services[i].namespace);
        }
        assert forall|i: int, j: int|
            0 <= i < services.len() && 0 <= j < services.len() && i != j implies (
        #[trigger] services[i]).label() != (#[trigger] services[j]).label() by {
            if i < j {
                assert(services[i].label() != services[j].label());
            } else {
                assert(services[j].label() != services[i].label());
            }
        }
    }
    if usable_together(services) && services.len() > 0 {
        let init = services.drop_last();
        let last = services.last();
        assert(services[services.len() - 1] == last);
        assert forall|i: int| 0 <= i < init.len() implies usable(#[trigger] init[i]) by {
            assert(init[i] == services[i]);
        }
        assert forall|i: int, j: int| 0 <= i < init.len() && 0 <= j < init.len() && i != j implies (
        #[trigger] init[i]).label() != (#[trigger] init[j]).label() by {
            assert(init[i] == services[i] && init[j] == services[j]);
        }
        faultless_services_are_usable_together(scope, init);
        crate::laws::texts::blank_texts_are_trimmed_to_nothing(last.namespace);
        assert(usable(last));
        assert(!service::bears_label(init, last.label()->Ok_0)) by {
            if service::bears_label(init, last.label()->Ok_0) {
                let i = choose|i: int|
                    0 <= i < init.len() && (#[trigger] init[i]).label() == Ok::<
                        Seq<char>,
                        ErrorView,
                    >(last.label()->Ok_0);
                assert(services[i] == init[i]);
                assert(services[i].label() != services[services.len() - 1].label());
            }
        }
    }
}

/// What is wrong with services is what is wrong with the first of them that is wrong, given
/// those before it.
pub proof fn the_first_fault_among_services_is_reported(
    scope: Seq<char>,
    services: Seq<ServiceView>,
    k: int,
)
    requires
        0 <= k < services.len(),
        service::services_fault(scope, services.take(k)) is None,
        services[k].fault(scope, services.take(k)) is Some,
    ensures
        service::services_fault(scope, services) == services[k].fault(scope, services.take(k)),
    decreases services.len(),
{
    if k == services.len() - 1 {
        assert(services.drop_last() =~= services.take(k));
    } else {
        let init = services.drop_last();
        assert(init.take(k) =~= services.take(k));
        assert(init[k] == services[k]);
        the_first_fault_among_services_is_reported(scope, init, k);
    }
}

/// Nothing is wrong with a cluster if and only if it may stand under its name.
pub proof fn faultless_clusters_are_sound(name: Seq<char>, cluster: ClusterView)
    ensures
        validate::cluster_fault(name, cluster) is None <==> sound(name, cluster),
{
    faultless_services_are_usable_together("clusters."@ + name, cluster.services);
    if cluster.context is Some {
        crate::laws::texts::blank_texts_are_trimmed_to_nothing(cluster.context->0);
    }
    if !validate::has_local_port(cluster.services) {
        assert forall|i: int| 0 <= i < cluster.services.len() implies (
        #[trigger] cluster.services[i]).local_port is None by {
            if cluster.services[i].local_port is Some {
                assert(validate::has_local_port(cluster.services));
            }
        }
    }
}

/// A cluster is refused for the first of these that holds: as `all`, that it names a context,
/// or holds a service with a port of its own; as any other, that its name is no label, that it
/// names no context, or a blank one; and then for what is wrong with its services.
pub proof fn clusters_are_refused_for_what_is_wrong(name: Seq<char>, cluster: ClusterView)
    ensures
        name == "all"@ ==> {
            let local = exists|i: int|
                0 <= i < cluster.services.len() && (#[trigger] cluster.services[i]).local_port is Some;
            &&& cluster.context is Some ==> validate::cluster_fault(name, cluster) == Some(
                ErrorView::AllWithContext,
            )
            &&& cluster.context is None && local ==> validate::cluster_fault(name, cluster) == Some(
                ErrorView::AllWithLocalPort,
            )
            &&& cluster.context is None && !local ==> validate::cluster_fault(name, cluster)
                == service::services_fault("clusters."@ + name, cluster.services)
        },
        name != "all"@ ==> {
            &&& !service::is_label(name) ==> validate::cluster_fault(name, cluster) == Some(
                ErrorView::Label { field: "cluster key"@ },
            )
            &&& service::is_label(name) && cluster.context is None ==> validate::cluster_fault(
                name,
                cluster,
            ) == Some(ErrorView::MissingContext { cluster: name })
            &&& service::is_label(name) && cluster.context is Some ==> {
                &&& text::blank(cluster.context->0) ==> validate::cluster_fault(name, cluster)
                    == Some(ErrorView::EmptyContext { cluster: name })
                &&& !text::blank(cluster.context->0) ==> validate::cluster_fault(name, cluster)
                    == service::services_fault("clusters."@ + name, cluster.services)
            }
        },
{
}

/// Nothing is wrong with clusters if and only if nothing is wrong with any of them; otherwise
/// what is wrong is what is wrong with the first that is wrong.
pub proof fn the_first_fault_among_clusters_is_reported(clusters: Seq<(Seq<char>, ClusterView)>)
    ensures
        match validate::clusters_fault(clusters) {
            None => forall|i: int|
                0 <= i < clusters.len() ==> validate::cluster_fault(
                    (#[trigger] clusters[i]).0,
                    clusters[i].1,
                ) is None,
            Some(e) => exists|k: int| #[trigger] first_fault(clusters, k, e),
        },
    decreases clusters.len(),
{
    if clusters.len() > 0 {
        let init = clusters.drop_last();
        let n = clusters.len() - 1;
        the_first_fault_among_clusters_is_reported(init);
        assert forall|i: int| 0 <= i < n implies #[trigger] clusters[i] == init[i] by {}
        match validate::clusters_fault(init) {
            Some(e) => {
                let k = choose|k: int| #[trigger] first_fault(init, k, e);
                assert(clusters[k] == init[k]);
                assert forall|i: int| 0 <= i < k implies validate::cluster_fault(
                    (#[trigger] clusters[i]).0,
                    clusters[i].1,
                ) is None by {
                    assert(clusters[i] == init[i]);
                }
                assert(first_fault(clusters, k, e));
            },
            None => {
                assert forall|i: int| 0 <= i < n implies validate::cluster_fault(
                    (#[trigger] clusters[i]).0,
                    clusters[i].1,
                ) is None by {
                    assert(clusters[i] == init[i]);
                    assert(validate::cluster_fault(init[i].0, init[i].1) is None);
                }
                if let Some(e) = validate::clusters_fault(clusters) {
                    assert(first_fault(clusters, n, e));
                }
            },
        }
    }
}

/// Whether the cluster at a position is the first that is wrong, and this is wrong with it.
pub open spec fn first_fault(clusters: Seq<(Seq<char>, ClusterView)>, k: int, e: ErrorView) -> bool {
    &&& 0 <= k < clusters.len()
    &&& validate::cluster_fault(clusters[k].0, clusters[k].1) == Some(e)
    &&& forall|i: int|
        0 <= i < k ==> validate::cluster_fault((#[trigger] clusters[i]).0, clusters[i].1) is None
}

/// A configuration is valid if and only if its proxy has a port and each of its clusters may
/// stand under its name: every cluster but `all` names a context that is not blank, `all` names
/// none, and every service can be forwarded to.
pub proof fn valid_configurations_are_sound(config: ConfigView)
    ensures
        config.fault() is None <==> {
            &&& config.port != 0
            &&& forall|i: int|
                0 <= i < config.clusters.len() ==> sound(
                    (#[trigger] config.clusters[i]).0,
                    config.clusters[i].1,
                )
        },
        config.port == 0 <==> config.fault() == Some(ErrorView::ProxyPort),
{
    let clusters = config.clusters;
    the_first_fault_among_clusters_is_reported(clusters);
    assert forall|i: int| 0 <= i < clusters.len() implies (validate::cluster_fault(
        (#[trigger] clusters[i]).0,
        clusters[i].1,
    ) is None <==> sound(clusters[i].0, clusters[i].1)) by {
        faultless_clusters_are_sound(clusters[i].0, clusters[i].1);
    }
    if let Some(e) = validate::clusters_fault(clusters) {
        let k = choose|k: int| #[trigger] first_fault(clusters, k, e);
        assert(!sound(clusters[k].0, clusters[k].1));
        lemma_cluster_faults_are_not_the_proxys(clusters[k].0, clusters[k].1);
    }
}

proof fn lemma_cluster_faults_are_not_the_proxys(name: Seq<char>, cluster: ClusterView)
    ensures
        validate::cluster_fault(name, cluster) != Some(ErrorView::ProxyPort),
{
    lemma_service_faults_are_not_the_proxys("clusters."@ + name, cluster.services);
}

proof fn lemma_service_faults_are_not_the_proxys(scope: Seq<char>, services: Seq<ServiceView>)
    ensures
        service::services_fault(scope, services) != Some(ErrorView::ProxyPort),
    decreases services.len(),
{
    if services.len() > 0 {
        lemma_service_faults_are_not_the_proxys(scope, services.drop_last());
    }
}

} // verus!
