//! Laws of expansion: which forwards a configuration asks for in kube contexts, and in which
//! order.

use vstd::prelude::*;

use crate::config;
use crate::config::{ClusterView, ConfigView, ForwardView, ServiceView};
use crate::error::ErrorView;
use crate::forwards;
use crate::laws::configuration;
use crate::service;

verus! {

/// Whether a cluster, other than `all`, names the context.
pub open spec fn names_context(entry: (Seq<char>, ClusterView), context: Seq<char>) -> bool {
    entry.0 != "all"@ && entry.1.context == Some(context)
}

/// A context reaches the first cluster, other than `all`, that names it, and none if none does.
pub proof fn contexts_reach_the_first_cluster_that_names_them(
    clusters: Seq<(Seq<char>, ClusterView)>,
    context: Seq<char>,
)
    ensures
        match forwards::serving(clusters, context) {
            Some(i) => 0 <= i < clusters.len() && names_context(clusters[i], context) && forall|
                j: int,
            |
                0 <= j < i ==> !names_context(#[trigger] clusters[j], context),
            None => forall|j: int|
                0 <= j < clusters.len() ==> !names_context(#[trigger] clusters[j], context),
        },
    decreases clusters.len(),
{
    if clusters.len() > 0 {
        let rest = clusters.drop_first();
        contexts_reach_the_first_cluster_that_names_them(rest, context);
        assert forall|j: int| 0 < j < clusters.len() implies #[trigger] clusters[j] == rest[j
            - 1] by {}
    }
}

/// A name leads to the first cluster that bears it, and to none if none does.
pub proof fn names_lead_to_the_first_bearer(
    clusters: Seq<(Seq<char>, ClusterView)>,
    name: Seq<char>,
)
    ensures
        match config::lookup(clusters, name) {
            Some(cluster) => exists|i: int|
                0 <= i < clusters.len() && #[trigger] clusters[i] == (name, cluster) && forall|
                    j: int,
                |
                    0 <= j < i ==> (#[trigger] clusters[j]).0 != name,
            None => forall|j: int| 0 <= j < clusters.len() ==> (#[trigger] clusters[j]).0 != name,
        },
    decreases clusters.len(),
{
    if clusters.len() > 0 {
        let rest = clusters.drop_first();
        names_lead_to_the_first_bearer(rest, name);
        assert forall|j: int| 0 < j < clusters.len() implies #[trigger] clusters[j] == rest[j
            - 1] by {}
        if clusters[0].0 == name {
            assert(clusters[0] == (name, clusters[0].1));
        } else if let Some(cluster) = config::lookup(rest, name) {
            let i = choose|i: int|
                0 <= i < rest.len() && #[trigger] rest[i] == (name, cluster) && forall|j: int|
                    0 <= j < i ==> (#[trigger] rest[j]).0 != name;
            assert(clusters[i + 1] == (name, cluster));
            assert forall|j: int| 0 <= j < i + 1 implies (#[trigger] clusters[j]).0 != name by {
                if j > 0 {
                    assert(rest[j - 1].0 != name);
                }
            }
        }
    }
}

/// The services that all clusters share are those of the cluster `all`; without it there are
/// none.
pub proof fn shared_services_are_those_of_all(config: ConfigView, i: int)
    ensures
        0 <= i < config.clusters.len() && config.clusters[i].0 == "all"@ && (forall|j: int|
            0 <= j < i ==> (#[trigger] config.clusters[j]).0 != "all"@)
            ==> config.shared_services() == config.clusters[i].1.services,
        (forall|j: int| 0 <= j < config.clusters.len() ==> (#[trigger] config.clusters[j]).0 != "all"@)
            ==> config.shared_services().len() == 0,
{
    names_lead_to_the_first_bearer(config.clusters, "all"@);
    if let Some(cluster) = config::lookup(config.clusters, "all"@) {
        let k = choose|k: int|
            0 <= k < config.clusters.len() && #[trigger] config.clusters[k] == ("all"@, cluster)
                && forall|j: int| 0 <= j < k ==> (#[trigger] config.clusters[j]).0 != "all"@;
        if 0 <= i < config.clusters.len() && config.clusters[i].0 == "all"@ && forall|j: int|
            0 <= j < i ==> (#[trigger] config.clusters[j]).0 != "all"@ {
            if i < k {
                assert(config.clusters[i].0 != "all"@);
            }
            if k < i {
                assert(config.clusters[k].0 != "all"@);
            }
        }
    }
}

/// Whether a service is the last of those that have its name, where it stands.
pub open spec fn is_last_of_its_name(services: Seq<ServiceView>, j: int) -> bool {
    &&& 0 <= j < services.len()
    &&& forall|k: int|
        j < k < services.len() ==> (#[trigger] services[k]).label() != services[j].label()
}

proof fn lemma_last_labelled_at(services: Seq<ServiceView>, j: int)
    requires
        is_last_of_its_name(services, j),
        services[j].label() is Ok,
    ensures
        forwards::last_labelled(services, services[j].label()->Ok_0) == Some(services[j]),
    decreases services.len(),
{
    let n = services.len() - 1;
    if j < n {
        assert(services[n].label() != services[j].label());
        let init = services.drop_last();
        assert(init[j] == services[j]);
        assert forall|k: int| j < k < init.len() implies (#[trigger] init[k]).label()
            != init[j].label() by {
            assert(init[k] == services[k]);
        }
        lemma_last_labelled_at(init, j);
    }
}

proof fn lemma_last_labelled_none(services: Seq<ServiceView>, name: Seq<char>)
    requires
        forall|k: int|
            0 <= k < services.len() ==> (#[trigger] services[k]).label() != Ok::<
                Seq<char>,
                ErrorView,
            >(name),
    ensures
        forwards::last_labelled(services, name) is None,
    decreases services.len(),
{
    if services.len() > 0 {
        let init = services.drop_last();
        assert(services[services.len() - 1].label() != Ok::<Seq<char>, ErrorView>(name));
        assert forall|k: int| 0 <= k < init.len() implies (#[trigger] init[k]).label() != Ok::<
            Seq<char>,
            ErrorView,
        >(name) by {
            assert(init[k] == services[k]);
        }
        lemma_last_labelled_none(init, name);
    }
}

/// A context that reaches no cluster has no forwards.
pub proof fn contexts_without_a_cluster_have_no_forwards(config: ConfigView, context: Seq<char>)
    requires
        forall|i: int|
            0 <= i < config.clusters.len() ==> !names_context(#[trigger] config.clusters[i], context),
    ensures
        config.forwards(context) == Ok::<Seq<ForwardView>, ErrorView>(Seq::empty()),
{
    contexts_reach_the_first_cluster_that_names_them(config.clusters, context);
    assert(seq![] =~= Seq::<ForwardView>::empty());
}

/// Whether the cluster at a position is the one that a context reaches.
pub open spec fn reaches(config: ConfigView, context: Seq<char>, at: int) -> bool {
    &&& 0 <= at < config.clusters.len()
    &&& names_context(config.clusters[at], context)
    &&& forall|j: int| 0 <= j < at ==> !names_context(#[trigger] config.clusters[j], context)
}

/// The forwards of a cluster begin with one for each shared service, in their order: that of
/// the last service of its own with the same name, or else that of the shared service itself.
/// Then come those of its other services, each of which has one, in their order.
pub proof fn shared_services_come_first(config: ConfigView, context: Seq<char>, at: int)
    requires
        reaches(config, context, at),
        config.forwards(context) is Ok,
    ensures
        ({
            let (name, cluster) = config.clusters[at];
            let shared = config.shared_services();
            let own = cluster.services;
            let all = config.forwards(context)->Ok_0;
            &&& all.len() >= shared.len()
            &&& forall|i: int, j: int|
                0 <= i < shared.len() && is_last_of_its_name(own, j) && (
                #[trigger] shared[i]).label() == (#[trigger] own[j]).label() ==> own[j].forward(
                    name,
                    context,
                ) == Ok::<ForwardView, ErrorView>(all[i])
            &&& forall|i: int|
                0 <= i < shared.len() && (forall|j: int|
                    0 <= j < own.len() ==> (#[trigger] own[j]).label() != shared[i].label())
                    ==> (#[trigger] shared[i]).forward(name, context) == Ok::<
                    ForwardView,
                    ErrorView,
                >(all[i])
            &&& forall|j: int|
                0 <= j < own.len() && !service::bears_label(
                    shared,
                    (#[trigger] own[j]).label()->Ok_0,
                ) ==> own[j].forward(name, context) is Ok
            &&& all.skip(shared.len() as int) == own.filter(
                |s: ServiceView| !service::bears_label(shared, s.label()->Ok_0),
            ).map_values(|s: ServiceView| s.forward(name, context)->Ok_0)
        }),
{
    contexts_reach_the_first_cluster_that_names_them(config.clusters, context);
    let served = forwards::serving(config.clusters, context)->0;
    if served < at {
        assert(!names_context(config.clusters[served], context));
    }
    if at < served {
        assert(!names_context(config.clusters[at], context));
    }
    assert(served == at);
    let (name, cluster) = config.clusters[at];
    let shared = config.shared_services();
    let own = cluster.services;
    let all = config.forwards(context)->Ok_0;
    let services = forwards::effective_services(shared, own);
    let results = forwards::forwards_of(services, name, context);
    forwards::lemma_collect_ok(results);
    forwards::lemma_collect_ok(forwards::labels(shared));
    forwards::lemma_collect_ok(forwards::labels(own));
    let head = shared.map_values(|s: ServiceView| forwards::overridden(own, s));
    let pred = |s: ServiceView| !service::bears_label(shared, s.label()->Ok_0);
    let tail = own.filter(pred);
    assert(services == head + tail);
    assert forall|i: int| 0 <= i < shared.len() implies (#[trigger] shared[i]).label() is Ok by {
        assert(forwards::labels(shared)[i] is Ok);
    }
    assert forall|i: int| 0 <= i < services.len() implies (#[trigger] services[i]).forward(
        name,
        context,
    ) == Ok::<ForwardView, ErrorView>(all[i]) by {
        assert(results[i] == services[i].forward(name, context));
    }
    assert forall|i: int, j: int|
        0 <= i < shared.len() && is_last_of_its_name(own, j) && (#[trigger] shared[i]).label() == (
        #[trigger] own[j]).label() implies own[j].forward(name, context) == Ok::<
        ForwardView,
        ErrorView,
    >(all[i]) by {
        lemma_last_labelled_at(own, j);
        assert(services[i] == head[i]);
        assert(head[i] == own[j]);
    }
    assert forall|i: int|
        0 <= i < shared.len() && (forall|j: int|
            0 <= j < own.len() ==> (#[trigger] own[j]).label() != shared[i].label()) implies (
    #[trigger] shared[i]).forward(name, context) == Ok::<ForwardView, ErrorView>(all[i]) by {
        lemma_last_labelled_none(own, shared[i].label()->Ok_0);
        assert(services[i] == head[i]);
        assert(head[i] == shared[i]);
    }
    assert forall|j: int|
        0 <= j < own.len() && !service::bears_label(
            shared,
            (#[trigger] own[j]).label()->Ok_0,
        ) implies own[j].forward(name, context) is Ok by {
        assert(pred(own[j]));
        configuration::lemma_filter_holds(own, pred, j);
        let i = choose|i: int| 0 <= i < tail.len() && tail[i] == own[j];
        assert(services[head.len() + i] == own[j]);
    }
    let mapped = tail.map_values(|s: ServiceView| s.forward(name, context)->Ok_0);
    let rest = all.skip(shared.len() as int);
    assert(rest.len() == mapped.len());
    assert forall|i: int| 0 <= i < rest.len() implies rest[i] == mapped[i] by {
        assert(services[shared.len() + i] == tail[i]);
    }
    assert(rest =~= mapped);
}

/// All services of a cluster, and all shared ones, are looked at: where each has a name and a
/// target there are forwards, and where a name lacks something there are none, and the first
/// such among the shared services is reported, or else among those of the cluster.
pub proof fn services_without_names_leave_no_forwards(config: ConfigView, context: Seq<char>, at: int)
    requires
        reaches(config, context, at),
    ensures
        ({
            let shared = config.shared_services();
            let own = config.clusters[at].1.services;
            let shared_named = forall|i: int|
                0 <= i < shared.len() ==> (#[trigger] shared[i]).label() is Ok;
            let own_named = forall|i: int|
                0 <= i < own.len() ==> (#[trigger] own[i]).label() is Ok;
            &&& shared_named && own_named && (forall|i: int|
                0 <= i < shared.len() ==> (#[trigger] shared[i]).kubectl_target() is Ok) && (forall|
                i: int,
            |
                0 <= i < own.len() ==> (#[trigger] own[i]).kubectl_target() is Ok)
                ==> config.forwards(context) is Ok
            &&& forall|k: int| #[trigger]
                first_unnamed(shared, k) ==> config.forwards(context) == Err::<
                    Seq<ForwardView>,
                    ErrorView,
                >(shared[k].label()->Err_0)
            &&& forall|k: int|
                shared_named && #[trigger] first_unnamed(own, k) ==> config.forwards(context)
                    == Err::<Seq<ForwardView>, ErrorView>(own[k].label()->Err_0)
        }),
{
    contexts_reach_the_first_cluster_that_names_them(config.clusters, context);
    let served = forwards::serving(config.clusters, context)->0;
    if served < at {
        assert(!names_context(config.clusters[served], context));
    }
    if at < served {
        assert(!names_context(config.clusters[at], context));
    }
    let (name, cluster) = config.clusters[at];
    let shared = config.shared_services();
    let own = cluster.services;
    let shared_labels = forwards::labels(shared);
    let own_labels = forwards::labels(own);
    forwards::lemma_collect_ok(shared_labels);
    forwards::lemma_collect_ok(own_labels);
    assert forall|i: int| 0 <= i < shared.len() implies #[trigger] shared_labels[i]
        == shared[i].label() by {}
    assert forall|i: int| 0 <= i < own.len() implies #[trigger] own_labels[i] == own[i].label() by {}
    assert forall|k: int| #[trigger] first_unnamed(shared, k) implies config.forwards(context)
        == Err::<Seq<ForwardView>, ErrorView>(shared[k].label()->Err_0) by {
        assert forall|i: int| 0 <= i < k implies (#[trigger] shared_labels[i]) is Ok by {
            assert(shared[i].label() is Ok);
        }
        assert(shared_labels[k] == shared[k].label());
        lemma_collect_first_error(shared_labels, k);
    }
    let shared_named = forall|i: int|
        0 <= i < shared.len() ==> (#[trigger] shared[i]).label() is Ok;
    if shared_named {
        assert forall|i: int| 0 <= i < shared_labels.len() implies (
        #[trigger] shared_labels[i]) is Ok by {
            assert(shared[i].label() is Ok);
        }
        assert forall|k: int| #[trigger] first_unnamed(own, k) implies config.forwards(context)
            == Err::<Seq<ForwardView>, ErrorView>(own[k].label()->Err_0) by {
            assert forall|i: int| 0 <= i < k implies (#[trigger] own_labels[i]) is Ok by {
                assert(own[i].label() is Ok);
            }
            assert(own_labels[k] == own[k].label());
            lemma_collect_first_error(own_labels, k);
        }
        let own_named = forall|i: int| 0 <= i < own.len() ==> (#[trigger] own[i]).label() is Ok;
        if own_named && (forall|i: int|
            0 <= i < shared.len() ==> (#[trigger] shared[i]).kubectl_target() is Ok) && (forall|
            i: int,
        |
            0 <= i < own.len() ==> (#[trigger] own[i]).kubectl_target() is Ok) {
            assert forall|i: int| 0 <= i < own_labels.len() implies (
            #[trigger] own_labels[i]) is Ok by {
                assert(own[i].label() is Ok);
            }
            let services = forwards::effective_services(shared, own);
            let results = forwards::forwards_of(services, name, context);
            assert forall|i: int| 0 <= i < results.len() implies (#[trigger] results[i]) is Ok by {
                lemma_effective_comes_from(shared, own, i);
                let s = services[i];
                assert(results[i] == s.forward(name, context));
                if own.contains(s) {
                    let j = choose|j: int| 0 <= j < own.len() && own[j] == s;
                    assert(own[j].label() is Ok && own[j].kubectl_target() is Ok);
                } else {
                    let j = choose|j: int| 0 <= j < shared.len() && shared[j] == s;
                    assert(shared[j].label() is Ok && shared[j].kubectl_target() is Ok);
                }
            }
            forwards::lemma_collect_ok(results);
        }
    }
}

/// Whether a service is the first without a name.
pub open spec fn first_unnamed(services: Seq<ServiceView>, k: int) -> bool {
    &&& 0 <= k < services.len()
    &&& services[k].label() is Err
    &&& forall|i: int| 0 <= i < k ==> (#[trigger] services[i]).label() is Ok
}

proof fn lemma_effective_comes_from(shared: Seq<ServiceView>, own: Seq<ServiceView>, i: int)
    requires
        0 <= i < forwards::effective_services(shared, own).len(),
    ensures
        shared.contains(forwards::effective_services(shared, own)[i]) || own.contains(
            forwards::effective_services(shared, own)[i],
        ),
{
    let pred = |s: ServiceView| !service::bears_label(shared, s.label()->Ok_0);
    let tail = own.filter(pred);
    let head = shared.map_values(|s: ServiceView| forwards::overridden(own, s));
    assert(forwards::effective_services(shared, own) == head + tail);
    if i < head.len() {
        assert(head[i] == forwards::overridden(own, shared[i]));
        lemma_last_labelled_comes_from(own, shared[i].label()->Ok_0);
    } else {
        configuration::lemma_filter_passes(own, pred, i - head.len());
    }
}

proof fn lemma_last_labelled_comes_from(services: Seq<ServiceView>, name: Seq<char>)
    ensures
        forwards::last_labelled(services, name) matches Some(s) ==> services.contains(s),
    decreases services.len(),
{
    if services.len() > 0 {
        let init = services.drop_last();
        lemma_last_labelled_comes_from(init, name);
        assert(services[services.len() - 1] == services.last());
        if let Some(s) = forwards::last_labelled(init, name) {
            let k = choose|k: int| 0 <= k < init.len() && init[k] == s;
            assert(services[k] == s);
        }
    }
}

proof fn lemma_collect_first_error<T>(results: Seq<Result<T, ErrorView>>, k: int)
    requires
        0 <= k < results.len(),
        results[k] is Err,
        forall|i: int| 0 <= i < k ==> (#[trigger] results[i]) is Ok,
    ensures
        forwards::collect(results) == Err::<Seq<T>, ErrorView>(results[k]->Err_0),
    decreases results.len(),
{
    let init = results.drop_last();
    if k < init.len() {
        assert(init[k] == results[k]);
        assert forall|i: int| 0 <= i < k implies (#[trigger] init[i]) is Ok by {
            assert(init[i] == results[i]);
        }
        lemma_collect_first_error(init, k);
    } else {
        forwards::lemma_collect_ok(init);
        assert forall|i: int| 0 <= i < init.len() implies (#[trigger] init[i]) is Ok by {
            assert(init[i] == results[i]);
        }
    }
}

/// The forwards of contexts are those of each in turn. A further context adds its own after
/// them, unless it is ignored; it is reported if it has none for some reason, or if it leads to
/// a route that was there before, together with the context that led there.
pub proof fn contexts_add_their_forwards(
    config: ConfigView,
    contexts: Seq<Seq<char>>,
    context: Seq<char>,
)
    ensures
        config.all_forwards(Seq::empty()) == Ok::<Seq<ForwardView>, ErrorView>(Seq::empty()),
        match config.all_forwards(contexts) {
            Err(e) => config.all_forwards(contexts.push(context)) == Err::<
                Seq<ForwardView>,
                ErrorView,
            >(e),
            Ok(first) => {
                &&& config.ignore.contains(context) ==> config.all_forwards(contexts.push(context))
                    == Ok::<Seq<ForwardView>, ErrorView>(first)
                &&& !config.ignore.contains(context) ==> match config.forwards(context) {
                    Err(e) => config.all_forwards(contexts.push(context)) == Err::<
                        Seq<ForwardView>,
                        ErrorView,
                    >(e),
                    Ok(more) => if configuration::distinct_routes(first + more) {
                        config.all_forwards(contexts.push(context)) == Ok::<
                            Seq<ForwardView>,
                            ErrorView,
                        >(first + more)
                    } else {
                        exists|i: int, j: int|
                            #![trigger (first + more)[i], (first + more)[j]]
                            first_repeat(first + more, i, j) && config.all_forwards(
                                contexts.push(context),
                            ) == Err::<Seq<ForwardView>, ErrorView>(
                                ErrorView::DuplicateRoute {
                                    previous: (first + more)[i].context,
                                    context: (first + more)[j].context,
                                    route: (first + more)[j].route,
                                },
                            )
                    },
                }
            },
        },
{
    assert(seq![] =~= Seq::<ForwardView>::empty());
    let longer = contexts.push(context);
    assert(longer.drop_last() =~= contexts);
    assert(longer.last() == context);
    if let Ok(first) = config.all_forwards(contexts) {
        if !config.ignore.contains(context) {
            if let Ok(more) = config.forwards(context) {
                configuration::forwards_have_distinct_routes(config, contexts);
                assert(configuration::distinct_routes(first));
                lemma_merged(first, more);
            }
        }
    }
}

/// Whether the forward at `j` is the first whose route stands before it, and first at `i`.
pub open spec fn first_repeat(all: Seq<ForwardView>, i: int, j: int) -> bool {
    &&& 0 <= i < j < all.len()
    &&& all[i].route == all[j].route
    &&& configuration::distinct_routes(all.take(j))
}

proof fn lemma_merged(first: Seq<ForwardView>, more: Seq<ForwardView>)
    requires
        configuration::distinct_routes(first),
    ensures
        configuration::distinct_routes(first + more) ==> forwards::merged(first, more) == Ok::<
            Seq<ForwardView>,
            ErrorView,
        >(first + more),
        !configuration::distinct_routes(first + more) ==> exists|i: int, j: int|
            #![trigger (first + more)[i], (first + more)[j]]
            first_repeat(first + more, i, j) && forwards::merged(first, more) == Err::<
                Seq<ForwardView>,
                ErrorView,
            >(
                ErrorView::DuplicateRoute {
                    previous: (first + more)[i].context,
                    context: (first + more)[j].context,
                    route: (first + more)[j].route,
                },
            ),
    decreases more.len(),
{
    let all = first + more;
    if more.len() == 0 {
        assert(all =~= first);
    } else {
        let n = first.len() as int;
        assert(all[n] == more[0]);
        configuration::lemma_route_position(first, more[0].route);
        match forwards::route_position(first, more[0].route) {
            Some(i) => {
                assert(all[i] == first[i]);
                assert(all.take(n) =~= first);
                assert(first_repeat(all, i, n));
                assert(all[i].route == all[n].route);
            },
            None => {
                let longer = first.push(more[0]);
                assert(longer + more.drop_first() =~= all);
                lemma_merged(longer, more.drop_first());
            },
        }
    }
}

/// Where every service has a name, what leaves a context without forwards is what leaves one of
/// its services, or of the shared ones, without a target.
pub proof fn missing_targets_leave_no_forwards(config: ConfigView, context: Seq<char>, at: int)
    requires
        reaches(config, context, at),
        config.forwards(context) is Err,
        forall|i: int|
            0 <= i < config.shared_services().len() ==> (
            #[trigger] config.shared_services()[i]).label() is Ok,
        forall|i: int|
            0 <= i < config.clusters[at].1.services.len() ==> (
            #[trigger] config.clusters[at].1.services[i]).label() is Ok,
    ensures
        exists|s: ServiceView|
            (config.shared_services().contains(s) || config.clusters[at].1.services.contains(s))
                && #[trigger] s.kubectl_target() == Err::<Seq<char>, ErrorView>(
                config.forwards(context)->Err_0,
            ),
{
    contexts_reach_the_first_cluster_that_names_them(config.clusters, context);
    let served = forwards::serving(config.clusters, context)->0;
    if served < at {
        assert(!names_context(config.clusters[served], context));
    }
    if at < served {
        assert(!names_context(config.clusters[at], context));
    }
    let (name, cluster) = config.clusters[at];
    let shared = config.shared_services();
    let own = cluster.services;
    forwards::lemma_collect_ok(forwards::labels(shared));
    forwards::lemma_collect_ok(forwards::labels(own));
    assert forall|i: int| 0 <= i < shared.len() implies (#[trigger] forwards::labels(
        shared,
    )[i]) is Ok by {
        assert(shared[i].label() is Ok);
    }
    assert forall|i: int| 0 <= i < own.len() implies (#[trigger] forwards::labels(own)[i]) is Ok by {
        assert(own[i].label() is Ok);
    }
    let services = forwards::effective_services(shared, own);
    let results = forwards::forwards_of(services, name, context);
    let k = lemma_error_comes_from(results);
    let s = services[k];
    assert(results[k] == s.forward(name, context));
    lemma_effective_comes_from(shared, own, k);
    if own.contains(s) {
        let j = choose|j: int| 0 <= j < own.len() && own[j] == s;
        assert(own[j].label() is Ok);
    } else {
        let j = choose|j: int| 0 <= j < shared.len() && shared[j] == s;
        assert(shared[j].label() is Ok);
    }
    assert(s.kubectl_target() == Err::<Seq<char>, ErrorView>(config.forwards(context)->Err_0));
}

proof fn lemma_error_comes_from<T>(results: Seq<Result<T, ErrorView>>) -> (k: int)
    requires
        forwards::collect(results) is Err,
    ensures
        0 <= k < results.len(),
        results[k] is Err,
        results[k]->Err_0 == forwards::collect(results)->Err_0,
    decreases results.len(),
{
    let init = results.drop_last();
    if forwards::collect(init) is Err {
        let k = lemma_error_comes_from(init);
        assert(init[k] == results[k]);
        k
    } else {
        results.len() - 1
    }
}

} // verus!
