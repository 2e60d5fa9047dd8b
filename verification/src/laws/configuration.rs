//! Laws of configurations and the forwards that follow from them.

use vstd::prelude::*;

use crate::config::{ClusterView, ConfigView, ForwardView, ServiceView};
use crate::config;
use crate::error::ErrorView;
use crate::forwards;
use crate::order;
use crate::route;
use crate::service;
use crate::validate;

verus! {

/// Whether no two forwards have the same route.
pub open spec fn distinct_routes(forwards: Seq<ForwardView>) -> bool {
    forall|i: int, j: int|
        0 <= i < j < forwards.len() ==> (#[trigger] forwards[i]).route != (
        #[trigger] forwards[j]).route
}

/// Whether all services have names, and no two the same one.
pub open spec fn distinct_labels(services: Seq<ServiceView>) -> bool {
    &&& forall|i: int| 0 <= i < services.len() ==> (#[trigger] services[i]).label() is Ok
    &&& forall|i: int, j: int|
        0 <= i < j < services.len() ==> (#[trigger] services[i]).label() != (
        #[trigger] services[j]).label()
}

/// Where nothing is wrong with the services of a scope, each has a label for a name, a
/// target, a namespace and a port, and no two have the same name.
pub proof fn faultless_services(scope: Seq<char>, services: Seq<ServiceView>)
    requires
        service::services_fault(scope, services) is None,
    ensures
        distinct_labels(services),
        forall|i: int|
            0 <= i < services.len() ==> {
                let s = #[trigger] services[i];
                &&& service::is_label(s.label()->Ok_0)
                &&& s.kubectl_target() is Ok
                &&& !crate::text::blank(s.namespace)
                &&& s.remote_port != 0
            },
    decreases services.len(),
{
    if services.len() > 0 {
        let init = services.drop_last();
        faultless_services(scope, init);
        let last = services.last();
        assert(last.fault(scope, init) is None);
        assert forall|i: int| 0 <= i < services.len() implies {
            let s = #[trigger] services[i];
            &&& s.label() is Ok
            &&& service::is_label(s.label()->Ok_0)
            &&& s.kubectl_target() is Ok
            &&& !crate::text::blank(s.namespace)
            &&& s.remote_port != 0
        } by {
            if i < init.len() {
                assert(services[i] == init[i]);
            }
        }
        assert forall|i: int, j: int| 0 <= i < j < services.len() implies (
        #[trigger] services[i]).label() != (#[trigger] services[j]).label() by {
            assert(services[i] == init[i]);
            if j < init.len() {
                assert(services[j] == init[j]);
            } else {
                assert(!service::bears_label(init, last.label()->Ok_0));
            }
        }
    }
}

/// Where nothing is wrong with the clusters, nothing is wrong with any of them.
pub proof fn faultless_clusters(clusters: Seq<(Seq<char>, ClusterView)>, at: int)
    requires
        validate::clusters_fault(clusters) is None,
        0 <= at < clusters.len(),
    ensures
        validate::cluster_fault(clusters[at].0, clusters[at].1) is None,
        service::services_fault("clusters."@ + clusters[at].0, clusters[at].1.services) is None,
        clusters[at].0 != "all"@ ==> service::is_label(clusters[at].0),
    decreases clusters.len(),
{
    if at < clusters.len() - 1 {
        faultless_clusters(clusters.drop_last(), at);
        assert(clusters.drop_last()[at] == clusters[at]);
    }
}

/// The cluster that serves a context names it, is not `all`, and none before it does so.
proof fn lemma_serving(clusters: Seq<(Seq<char>, ClusterView)>, context: Seq<char>)
    ensures
        forwards::serving(clusters, context) matches Some(i) ==> 0 <= i < clusters.len()
            && clusters[i].0 != "all"@ && clusters[i].1.context == Some(context),
        forwards::serving(clusters, context) is None ==> forall|i: int|
            0 <= i < clusters.len() ==> (#[trigger] clusters[i]).0 == "all"@
                || clusters[i].1.context != Some(context),
    decreases clusters.len(),
{
    if clusters.len() > 0 {
        lemma_serving(clusters.drop_first(), context);
        let rest = clusters.drop_first();
        if forwards::serving(clusters, context) is None {
            assert forall|i: int| 0 <= i < clusters.len() implies (#[trigger] clusters[i]).0
                == "all"@ || clusters[i].1.context != Some(context) by {
                if i > 0 {
                    assert(clusters[i] == rest[i - 1]);
                }
            }
        }
    }
}

/// The last service of a name has that name, and is one of the services.
proof fn lemma_last_labelled(services: Seq<ServiceView>, name: Seq<char>)
    ensures
        match forwards::last_labelled(services, name) {
            Some(s) => s.label() == Ok::<Seq<char>, ErrorView>(name) && services.contains(s),
            None => !service::bears_label(services, name),
        },
    decreases services.len(),
{
    if services.len() > 0 {
        let init = services.drop_last();
        lemma_last_labelled(init, name);
        match forwards::last_labelled(init, name) {
            Some(s) => {
                let i = choose|i: int| 0 <= i < init.len() && init[i] == s;
                if init.contains(s) {
                    assert(services[i] == s);
                }
            },
            None => {},
        }
        if services.last().label() == Ok::<Seq<char>, ErrorView>(name) {
            assert(services[services.len() - 1] == services.last());
        } else {
            if service::bears_label(services, name) {
                let i = choose|i: int|
                    0 <= i < services.len() && (#[trigger] services[i]).label() == Ok::<
                        Seq<char>,
                        ErrorView,
                    >(name);
                assert(init[i] == services[i]);
            }
        }
    }
}

/// Filtering keeps names distinct.
proof fn lemma_filter_distinct(services: Seq<ServiceView>, pred: spec_fn(ServiceView) -> bool)
    requires
        distinct_labels(services),
    ensures
        distinct_labels(services.filter(pred)),
        forall|i: int|
            0 <= i < services.filter(pred).len() ==> services.contains(
                #[trigger] services.filter(pred)[i],
            ) && pred(services.filter(pred)[i]),
    decreases services.len(),
{
    reveal(Seq::filter);
    let kept = services.filter(pred);
    if services.len() > 0 {
        let init = services.drop_last();
        assert forall|i: int| 0 <= i < init.len() implies (#[trigger] init[i]).label() is Ok by {
            assert(init[i] == services[i]);
        }
        assert forall|i: int, j: int| 0 <= i < j < init.len() implies (
        #[trigger] init[i]).label() != (#[trigger] init[j]).label() by {
            assert(init[i] == services[i] && init[j] == services[j]);
        }
        lemma_filter_distinct(init, pred);
        let before = init.filter(pred);
        assert forall|i: int| 0 <= i < kept.len() implies services.contains(#[trigger] kept[i])
            && pred(kept[i]) by {
            if i < before.len() {
                assert(kept[i] == before[i]);
                let k = choose|k: int| 0 <= k < init.len() && init[k] == before[i];
                assert(services[k] == kept[i]);
            } else {
                assert(services[services.len() - 1] == kept[i]);
            }
        }
        assert forall|i: int| 0 <= i < kept.len() implies (#[trigger] kept[i]).label() is Ok by {
            let k = choose|k: int| 0 <= k < services.len() && services[k] == kept[i];
            assert(services.contains(kept[i]));
        }
        assert forall|i: int, j: int| 0 <= i < j < kept.len() implies (
        #[trigger] kept[i]).label() != (#[trigger] kept[j]).label() by {
            assert(kept[i] == before[i]);
            if j < before.len() {
                assert(kept[j] == before[j]);
            } else {
                let k = choose|k: int| 0 <= k < init.len() && init[k] == before[i];
                assert(services[k] == kept[i]);
                assert(services[services.len() - 1] == kept[j]);
            }
        }
    }
}

/// In a faultless cluster the services that take effect have distinct names, and each is one
/// of the shared or of its own.
proof fn lemma_effective(shared: Seq<ServiceView>, own: Seq<ServiceView>)
    requires
        distinct_labels(shared),
        distinct_labels(own),
    ensures
        distinct_labels(forwards::effective_services(shared, own)),
        forall|i: int|
            0 <= i < forwards::effective_services(shared, own).len() ==> shared.contains(
                #[trigger] forwards::effective_services(shared, own)[i],
            ) || own.contains(forwards::effective_services(shared, own)[i]),
{
    let all = forwards::effective_services(shared, own);
    let head = shared.map_values(|s: ServiceView| forwards::overridden(own, s));
    let pred = |s: ServiceView| !service::bears_label(shared, s.label()->Ok_0);
    let tail = own.filter(pred);
    assert(all == head + tail);
    lemma_filter_distinct(own, pred);
    assert forall|i: int| 0 <= i < head.len() implies {
        &&& (#[trigger] head[i]).label() == shared[i].label()
        &&& shared.contains(head[i]) || own.contains(head[i])
    } by {
        lemma_last_labelled(own, shared[i].label()->Ok_0);
        assert(shared[i].label() is Ok);
        assert(head[i] == forwards::overridden(own, shared[i]));
    }
    assert forall|i: int| 0 <= i < all.len() implies {
        &&& (#[trigger] all[i]).label() is Ok
        &&& shared.contains(all[i]) || own.contains(all[i])
    } by {
        if i < head.len() {
            assert(all[i] == head[i]);
            assert(shared[i].label() is Ok);
        } else {
            assert(all[i] == tail[i - head.len()]);
        }
    }
    assert forall|i: int, j: int| 0 <= i < j < all.len() implies (#[trigger] all[i]).label() != (
    #[trigger] all[j]).label() by {
        if j < head.len() {
            assert(all[i] == head[i] && all[j] == head[j]);
            assert(shared[i].label() != shared[j].label());
        } else if i < head.len() {
            assert(all[i] == head[i] && all[j] == tail[j - head.len()]);
            assert(pred(tail[j - head.len()]));
            assert(!service::bears_label(shared, all[j].label()->Ok_0));
            assert(shared[i].label() == all[i].label());
        } else {
            assert(all[i] == tail[i - head.len()] && all[j] == tail[j - head.len()]);
        }
    }
}

/// A route tells its cluster and its service: where the clusters have labels for names, two
/// routes are the same only if the clusters are, and the services.
pub proof fn routes_tell_apart(
    cluster: Seq<char>,
    name: Seq<char>,
    other_cluster: Seq<char>,
    other_name: Seq<char>,
)
    requires
        service::is_label(cluster),
        service::is_label(other_cluster),
        route::route_of(cluster, name) == route::route_of(other_cluster, other_name),
    ensures
        cluster == other_cluster,
        name == other_name,
{
    reveal_strlit(".");
    let r = route::route_of(cluster, name);
    let n = cluster.len() as int;
    let m = other_cluster.len() as int;
    assert(r[n] == '.');
    assert(r[m] == '.');
    if n < m {
        assert(r[n] == other_cluster[n]);
        assert(service::label_char(other_cluster[n]));
    }
    if m < n {
        assert(r[m] == cluster[m]);
        assert(service::label_char(cluster[m]));
    }
    assert(cluster =~= r.take(n));
    assert(other_cluster =~= r.take(m));
    assert(name =~= r.skip(n + 1));
    assert(other_name =~= r.skip(m + 1));
}

/// Routes in one cluster differ where the services do.
proof fn lemma_same_cluster(cluster: Seq<char>, name: Seq<char>, other: Seq<char>)
    requires
        route::route_of(cluster, name) == route::route_of(cluster, other),
    ensures
        name == other,
{
    let n = cluster.len() + "."@.len();
    assert(name =~= route::route_of(cluster, name).skip(n as int));
    assert(other =~= route::route_of(cluster, other).skip(n as int));
}

/// A valid configuration has forwards for every kube context: what is wrong with a service
/// comes to light when the configuration is validated, and not later. The forwards of a
/// context have distinct routes, bear that context, and lie in the cluster that it reaches.
pub proof fn valid_configurations_have_forwards(config: ConfigView, context: Seq<char>)
    requires
        config.fault() is None,
    ensures
        config.forwards(context) is Ok,
        distinct_routes(config.forwards(context)->Ok_0),
        forall|i: int|
            0 <= i < config.forwards(context)->Ok_0.len() ==> lies_in(
                config,
                #[trigger] config.forwards(context)->Ok_0[i],
                context,
            ),
{
    lemma_serving(config.clusters, context);
    match forwards::serving(config.clusters, context) {
        None => {},
        Some(at) => {
            let (name, cluster) = config.clusters[at];
            let shared = config.shared_services();
            let own = cluster.services;
            faultless_clusters(config.clusters, at);
            faultless_services("clusters."@ + name, own);
            if config::lookup(config.clusters, "all"@) is Some {
                let k = config::lemma_lookup_found(config.clusters, "all"@);
                faultless_clusters(config.clusters, k);
                faultless_services("clusters."@ + "all"@, shared);
            }
            forwards::lemma_collect_ok(forwards::labels(shared));
            forwards::lemma_collect_ok(forwards::labels(own));
            lemma_effective(shared, own);
            let all = forwards::effective_services(shared, own);
            let results = forwards::forwards_of(all, name, context);
            assert forall|i: int| 0 <= i < results.len() implies {
                &&& (#[trigger] results[i]) is Ok
                &&& results[i]->Ok_0.route == route::route_of(name, all[i].label()->Ok_0)
                &&& results[i]->Ok_0.context == context
                &&& service::is_label(all[i].label()->Ok_0)
            } by {
                assert(results[i] == all[i].forward(name, context));
                assert(all[i].label() is Ok);
                if own.contains(all[i]) {
                    let j = choose|j: int| 0 <= j < own.len() && own[j] == all[i];
                    assert(own[j].kubectl_target() is Ok);
                } else {
                    assert(shared.contains(all[i]));
                    let j = choose|j: int| 0 <= j < shared.len() && shared[j] == all[i];
                    assert(shared[j].kubectl_target() is Ok);
                }
            }
            forwards::lemma_collect_ok(results);
            let values = forwards::collect(results)->Ok_0;
            assert(config.forwards(context) == Ok::<Seq<ForwardView>, ErrorView>(values));
            assert forall|i: int, j: int| 0 <= i < j < values.len() implies (
            #[trigger] values[i]).route != (#[trigger] values[j]).route by {
                assert(results[i] == Ok::<ForwardView, ErrorView>(values[i]));
                assert(results[j] == Ok::<ForwardView, ErrorView>(values[j]));
                if values[i].route == values[j].route {
                    lemma_same_cluster(name, all[i].label()->Ok_0, all[j].label()->Ok_0);
                    assert(all[i].label() == all[j].label());
                }
            }
            assert forall|i: int| 0 <= i < values.len() implies lies_in(
                config,
                #[trigger] values[i],
                context,
            ) by {
                assert(results[i] == Ok::<ForwardView, ErrorView>(values[i]));
                let n = all[i].label()->Ok_0;
                assert(values[i].route == route::route_of(name, n));
            }
        },
    }
}

/// Whether a forward bears the context, and its route names the cluster that the context
/// reaches and a service by a label.
pub open spec fn lies_in(config: ConfigView, forward: ForwardView, context: Seq<char>) -> bool {
    &&& forward.context == context
    &&& forwards::serving(config.clusters, context) is Some
    &&& exists|name: Seq<char>|
        service::is_label(name) && forward.route == #[trigger] route::route_of(
            config.clusters[forwards::serving(config.clusters, context)->0].0,
            name,
        )
}

/// Where a route stands among forwards.
pub proof fn lemma_route_position(forwards: Seq<ForwardView>, route: Seq<char>)
    ensures
        match forwards::route_position(forwards, route) {
            Some(i) => 0 <= i < forwards.len() && forwards[i].route == route,
            None => forall|i: int|
                0 <= i < forwards.len() ==> (#[trigger] forwards[i]).route != route,
        },
    decreases forwards.len(),
{
    if forwards.len() > 0 {
        let rest = forwards.drop_first();
        lemma_route_position(rest, route);
        if forwards::route_position(forwards, route) is None {
            assert forall|i: int| 0 <= i < forwards.len() implies (#[trigger] forwards[i]).route
                != route by {
                if i > 0 {
                    assert(forwards[i] == rest[i - 1]);
                }
            }
        }
    }
}

/// Forwards are merged unless a route comes up twice, and then in order.
proof fn lemma_merged(first: Seq<ForwardView>, more: Seq<ForwardView>)
    requires
        distinct_routes(first),
    ensures
        forwards::merged(first, more) is Ok <==> distinct_routes(first + more),
        forwards::merged(first, more) matches Ok(all) ==> all == first + more,
    decreases more.len(),
{
    if more.len() == 0 {
        assert(first + more =~= first);
    } else {
        let all = first + more;
        lemma_route_position(first, more[0].route);
        match forwards::route_position(first, more[0].route) {
            Some(i) => {
                assert(all[i] == first[i]);
                assert(all[first.len() as int] == more[0]);
            },
            None => {
                let longer = first.push(more[0]);
                assert(longer + more.drop_first() =~= all);
                lemma_merged(longer, more.drop_first());
            },
        }
    }
}

/// Whatever the configuration, forwards that come from several contexts have distinct routes,
/// and each comes from one of these contexts that is not ignored.
pub proof fn forwards_have_distinct_routes(config: ConfigView, contexts: Seq<Seq<char>>)
    requires
        config.all_forwards(contexts) is Ok,
    ensures
        distinct_routes(config.all_forwards(contexts)->Ok_0),
        forall|i: int|
            0 <= i < config.all_forwards(contexts)->Ok_0.len() ==> {
                let f = #[trigger] config.all_forwards(contexts)->Ok_0[i];
                contexts.contains(f.context) && !config.ignore.contains(f.context)
            },
    decreases contexts.len(),
{
    if contexts.len() > 0 {
        let init = contexts.drop_last();
        let last = contexts.last();
        forwards_have_distinct_routes(config, init);
        let first = config.all_forwards(init)->Ok_0;
        let all = config.all_forwards(contexts)->Ok_0;
        let more = if config.ignore.contains(last) {
            seq![]
        } else {
            config.forwards(last)->Ok_0
        };
        lemma_merged(first, more);
        assert(first + Seq::<ForwardView>::empty() =~= first);
        assert(all == first + more);
        lemma_forwards_bear_context(config, last);
        assert forall|i: int| 0 <= i < all.len() implies {
            let f = #[trigger] all[i];
            contexts.contains(f.context) && !config.ignore.contains(f.context)
        } by {
            if i < first.len() {
                assert(all[i] == first[i]);
                let k = choose|k: int| 0 <= k < init.len() && init[k] == all[i].context;
                assert(contexts[k] == all[i].context);
            } else {
                assert(all[i] == more[i - first.len()]);
                assert(contexts[contexts.len() - 1] == all[i].context);
            }
        }
    }
}

/// The forwards in a context bear it.
proof fn lemma_forwards_bear_context(config: ConfigView, context: Seq<char>)
    ensures
        config.forwards(context) matches Ok(all) ==> forall|i: int|
            0 <= i < all.len() ==> (#[trigger] all[i]).context == context,
{
    if config.forwards(context) is Ok && forwards::serving(config.clusters, context) is Some {
        let (name, cluster) = config.clusters[forwards::serving(config.clusters, context)->0];
        let services = forwards::effective_services(config.shared_services(), cluster.services);
        let results = forwards::forwards_of(services, name, context);
        forwards::lemma_collect_ok(results);
        let all = config.forwards(context)->Ok_0;
        assert forall|i: int| 0 <= i < all.len() implies (#[trigger] all[i]).context == context by {
            assert(results[i] == services[i].forward(name, context));
            assert(results[i] == Ok::<ForwardView, ErrorView>(all[i]));
        }
    }
}

/// Whether no context is listed twice.
pub open spec fn listed_once(contexts: Seq<Seq<char>>) -> bool {
    forall|i: int, j: int|
        0 <= i < j < contexts.len() ==> #[trigger] contexts[i] != #[trigger] contexts[j]
}

/// A valid configuration has forwards for any kube contexts that are listed once: no two of
/// them lead to the same route. The forwards are those of the contexts in turn, without the
/// ignored ones.
pub proof fn valid_configurations_never_collide(config: ConfigView, contexts: Seq<Seq<char>>)
    requires
        config.fault() is None,
        config::names_rise(config.clusters),
        listed_once(contexts),
    ensures
        config.all_forwards(contexts) is Ok,
        contexts.len() > 0 ==> config.all_forwards(contexts)->Ok_0 == config.all_forwards(
            contexts.drop_last(),
        )->Ok_0 + (if config.ignore.contains(contexts.last()) {
            seq![]
        } else {
            config.forwards(contexts.last())->Ok_0
        }),
        forall|i: int|
            0 <= i < config.all_forwards(contexts)->Ok_0.len() ==> {
                let f = #[trigger] config.all_forwards(contexts)->Ok_0[i];
                contexts.contains(f.context) && lies_in(config, f, f.context)
            },
    decreases contexts.len(),
{
    if contexts.len() > 0 {
        let init = contexts.drop_last();
        let last = contexts.last();
        assert forall|i: int, j: int| 0 <= i < j < init.len() implies #[trigger] init[i]
            != #[trigger] init[j] by {
            assert(contexts[i] == init[i] && contexts[j] == init[j]);
        }
        valid_configurations_never_collide(config, init);
        forwards_have_distinct_routes(config, init);
        valid_configurations_have_forwards(config, last);
        let first = config.all_forwards(init)->Ok_0;
        assert(first + Seq::<ForwardView>::empty() =~= first);
        if !config.ignore.contains(last) {
            let more = config.forwards(last)->Ok_0;
            let all = first + more;
            assert forall|i: int, j: int| 0 <= i < j < all.len() implies (
            #[trigger] all[i]).route != (#[trigger] all[j]).route by {
                if j < first.len() {
                    assert(all[i] == first[i] && all[j] == first[j]);
                } else if i >= first.len() {
                    assert(all[i] == more[i - first.len()] && all[j] == more[j - first.len()]);
                } else {
                    let f = first[i];
                    let g = more[j - first.len()];
                    assert(all[i] == f && all[j] == g);
                    assert(lies_in(config, f, f.context) && lies_in(config, g, last));
                    let k = choose|k: int| 0 <= k < init.len() && init[k] == f.context;
                    assert(contexts[k] != contexts[contexts.len() - 1]);
                    assert(f.context != last);
                    lemma_serving(config.clusters, f.context);
                    lemma_serving(config.clusters, last);
                    let p = forwards::serving(config.clusters, f.context)->0;
                    let q = forwards::serving(config.clusters, last)->0;
                    faultless_clusters(config.clusters, p);
                    faultless_clusters(config.clusters, q);
                    let a = choose|name: Seq<char>|
                        service::is_label(name) && f.route == #[trigger] route::route_of(
                            config.clusters[p].0,
                            name,
                        );
                    let b = choose|name: Seq<char>|
                        service::is_label(name) && g.route == #[trigger] route::route_of(
                            config.clusters[q].0,
                            name,
                        );
                    if f.route == g.route {
                        routes_tell_apart(config.clusters[p].0, a, config.clusters[q].0, b);
                        if p < q {
                            assert(order::text_lt(config.clusters[p].0, config.clusters[q].0));
                        } else if q < p {
                            assert(order::text_lt(config.clusters[q].0, config.clusters[p].0));
                        }
                    }
                }
            }
            lemma_merged(first, more);
        }
        let all = config.all_forwards(contexts)->Ok_0;
        assert forall|i: int| 0 <= i < all.len() implies {
            let f = #[trigger] all[i];
            contexts.contains(f.context) && lies_in(config, f, f.context)
        } by {
            if i < first.len() {
                assert(all[i] == first[i]);
                let k = choose|k: int| 0 <= k < init.len() && init[k] == all[i].context;
                assert(contexts[k] == all[i].context);
            } else {
                let more = config.forwards(last)->Ok_0;
                assert(all[i] == more[i - first.len()]);
                assert(lies_in(config, more[i - first.len()], last));
                assert(contexts[contexts.len() - 1] == last);
            }
        }
    }
}

/// In a valid configuration a cluster has every service of its own, and every shared service
/// that no service of its own has the name of, and no others.
pub proof fn clusters_share_and_override(config: ConfigView, context: Seq<char>, at: int)
    requires
        config.fault() is None,
        forwards::serving(config.clusters, context) == Some(at),
    ensures
        ({
            let (name, cluster) = config.clusters[at];
            let shared = config.shared_services();
            let all = config.forwards(context)->Ok_0;
            &&& forall|s: ServiceView| #[trigger]
                cluster.services.contains(s) ==> all.contains(s.forward(name, context)->Ok_0)
            &&& forall|s: ServiceView| #[trigger]
                shared.contains(s) && !service::bears_label(cluster.services, s.label()->Ok_0)
                    ==> all.contains(s.forward(name, context)->Ok_0)
            &&& forall|i: int|
                0 <= i < all.len() ==> exists|s: ServiceView|
                    s.forward(name, context) == Ok::<ForwardView, ErrorView>(#[trigger] all[i])
                        && (#[trigger] cluster.services.contains(s) || (shared.contains(s)
                        && !service::bears_label(cluster.services, s.label()->Ok_0)))
        }),
{
    valid_configurations_have_forwards(config, context);
    lemma_serving(config.clusters, context);
    let (name, cluster) = config.clusters[at];
    let shared = config.shared_services();
    let own = cluster.services;
    let all = config.forwards(context)->Ok_0;
    faultless_clusters(config.clusters, at);
    faultless_services("clusters."@ + name, own);
    if config::lookup(config.clusters, "all"@) is Some {
        let k = config::lemma_lookup_found(config.clusters, "all"@);
        faultless_clusters(config.clusters, k);
        faultless_services("clusters."@ + "all"@, shared);
    }
    let services = forwards::effective_services(shared, own);
    let results = forwards::forwards_of(services, name, context);
    forwards::lemma_collect_ok(results);
    lemma_effective(shared, own);
    let head = shared.map_values(|s: ServiceView| forwards::overridden(own, s));
    let pred = |s: ServiceView| !service::bears_label(shared, s.label()->Ok_0);
    let tail = own.filter(pred);
    assert(services == head + tail);
    lemma_filter_distinct(own, pred);
    assert forall|i: int| 0 <= i < services.len() implies #[trigger] all[i]
        == services[i].forward(name, context)->Ok_0 && results[i] == services[i].forward(
        name,
        context,
    ) && results[i] is Ok by {
        assert(results[i] == services[i].forward(name, context));
        assert(results[i] == Ok::<ForwardView, ErrorView>(all[i]));
    }
    assert forall|s: ServiceView| #[trigger] own.contains(s) implies all.contains(
        s.forward(name, context)->Ok_0,
    ) by {
        let k = choose|k: int| 0 <= k < own.len() && own[k] == s;
        let n = s.label()->Ok_0;
        assert(own[k].label() is Ok);
        if service::bears_label(shared, n) {
            let i = choose|i: int|
                0 <= i < shared.len() && (#[trigger] shared[i]).label() == Ok::<
                    Seq<char>,
                    ErrorView,
                >(n);
            lemma_last_labelled(own, n);
            assert(own[k].label() == Ok::<Seq<char>, ErrorView>(n));
            assert(service::bears_label(own, n));
            let o = forwards::last_labelled(own, n)->0;
            let m = choose|m: int| 0 <= m < own.len() && own[m] == o;
            assert(own[m].label() == own[k].label());
            assert(m == k);
            assert(head[i] == s);
            assert(services[i] == s);
            assert(all[i] == s.forward(name, context)->Ok_0);
        } else {
            lemma_filter_holds(own, pred, k);
            let i = choose|i: int| 0 <= i < tail.len() && tail[i] == s;
            assert(services[head.len() + i] == s);
            assert(all[head.len() + i] == s.forward(name, context)->Ok_0);
        }
    }
    assert forall|s: ServiceView| #[trigger]
        shared.contains(s) && !service::bears_label(own, s.label()->Ok_0) implies all.contains(
        s.forward(name, context)->Ok_0,
    ) by {
        let i = choose|i: int| 0 <= i < shared.len() && shared[i] == s;
        lemma_last_labelled(own, s.label()->Ok_0);
        if forwards::last_labelled(own, s.label()->Ok_0) is Some {
            let o = forwards::last_labelled(own, s.label()->Ok_0)->0;
            let m = choose|m: int| 0 <= m < own.len() && own[m] == o;
            assert(own[m].label() == Ok::<Seq<char>, ErrorView>(s.label()->Ok_0));
        }
        assert(head[i] == s);
        assert(services[i] == s);
        assert(all[i] == s.forward(name, context)->Ok_0);
    }
    assert forall|i: int| 0 <= i < all.len() implies exists|s: ServiceView|
        s.forward(name, context) == Ok::<ForwardView, ErrorView>(#[trigger] all[i]) && (
        #[trigger] own.contains(s) || (shared.contains(s) && !service::bears_label(
            own,
            s.label()->Ok_0,
        ))) by {
        let s = services[i];
        assert(results[i] == Ok::<ForwardView, ErrorView>(all[i]));
        assert(s.forward(name, context) == Ok::<ForwardView, ErrorView>(all[i]));
        if !own.contains(s) {
            assert(shared.contains(s));
            if i < head.len() {
                assert(s == head[i]);
                lemma_last_labelled(own, shared[i].label()->Ok_0);
                assert(s == shared[i]);
            } else {
                assert(s == tail[i - head.len()]);
            }
        }
    }
}

/// What is left by a filter passes it.
pub proof fn lemma_filter_passes<T>(s: Seq<T>, pred: spec_fn(T) -> bool, i: int)
    requires
        0 <= i < s.filter(pred).len(),
    ensures
        pred(s.filter(pred)[i]),
        s.contains(s.filter(pred)[i]),
    decreases s.len(),
{
    reveal(Seq::filter);
    if s.len() > 0 {
        let init = s.drop_last();
        if i < init.filter(pred).len() {
            lemma_filter_passes(init, pred, i);
            let k = choose|k: int| 0 <= k < init.len() && init[k] == init.filter(pred)[i];
            assert(s[k] == s.filter(pred)[i]);
        } else {
            assert(s[s.len() - 1] == s.filter(pred)[i]);
        }
    }
}

/// What passes a filter is in what it leaves.
pub proof fn lemma_filter_holds<T>(s: Seq<T>, pred: spec_fn(T) -> bool, k: int)
    requires
        0 <= k < s.len(),
        pred(s[k]),
    ensures
        s.filter(pred).contains(s[k]),
    decreases s.len(),
{
    reveal(Seq::filter);
    let init = s.drop_last();
    let kept = s.filter(pred);
    if k < init.len() {
        lemma_filter_holds(init, pred, k);
        let i = choose|i: int| 0 <= i < init.filter(pred).len() && init.filter(pred)[i] == s[k];
        assert(kept[i] == s[k]);
    } else {
        assert(kept[kept.len() - 1] == s[k]);
    }
}

/// In a valid configuration no shared service has a port of its own, so that a port belongs
/// to one cluster.
pub proof fn shared_services_have_no_local_port(config: ConfigView, i: int)
    requires
        config.fault() is None,
        0 <= i < config.shared_services().len(),
    ensures
        config.shared_services()[i].local_port is None,
{
    let k = config::lemma_lookup_found(config.clusters, "all"@);
    faultless_clusters(config.clusters, k);
}

} // verus!
