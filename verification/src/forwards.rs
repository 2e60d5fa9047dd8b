//! The forwards that a configuration asks for in kube contexts.

use vstd::prelude::*;

use crate::config::{ClusterView, Config, ConfigView, ForwardSpec, ForwardView, Service, ServiceView};
use crate::config;
use crate::error::{ConfigError, ErrorView};
use crate::service;
use crate::text;

verus! {

/// All values, or the first error among them.
pub open spec fn collect<T>(results: Seq<Result<T, ErrorView>>) -> Result<Seq<T>, ErrorView>
    decreases results.len(),
{
    if results.len() == 0 {
        Ok(seq![])
    } else {
        match (collect(results.drop_last()), results.last()) {
            (Err(e), _) => Err(e),
            (_, Err(e)) => Err(e),
            (Ok(values), Ok(value)) => Ok(values.push(value)),
        }
    }
}

/// An error among the first results is the error of them all.
pub proof fn lemma_collect_prefix<T>(results: Seq<Result<T, ErrorView>>, n: int)
    requires
        0 <= n <= results.len(),
    ensures
        collect(results.take(n)) is Err ==> collect(results) == collect(results.take(n)),
    decreases results.len(),
{
    if n == results.len() {
        assert(results.take(n) =~= results);
    } else {
        assert(results.drop_last().take(n) =~= results.take(n));
        lemma_collect_prefix(results.drop_last(), n);
    }
}

/// What is collected is what the results hold.
pub proof fn lemma_collect_ok<T>(results: Seq<Result<T, ErrorView>>)
    ensures
        collect(results) is Ok <==> forall|i: int|
            0 <= i < results.len() ==> (#[trigger] results[i]) is Ok,
        collect(results) matches Ok(values) ==> values.len() == results.len() && forall|i: int|
            0 <= i < results.len() ==> (#[trigger] results[i]) == Ok::<T, ErrorView>(values[i]),
    decreases results.len(),
{
    if results.len() > 0 {
        lemma_collect_ok(results.drop_last());
        let init = results.drop_last();
        assert forall|i: int| 0 <= i < init.len() implies #[trigger] init[i] == results[i] by {}
        if collect(results) is Ok {
            assert forall|i: int| 0 <= i < results.len() implies (#[trigger] results[i]) == Ok::<
                T,
                ErrorView,
            >(collect(results)->Ok_0[i]) by {
                if i < init.len() {
                    assert(init[i] == results[i]);
                }
            }
        } else {
            if forall|i: int| 0 <= i < results.len() ==> (#[trigger] results[i]) is Ok {
                assert forall|i: int| 0 <= i < init.len() implies (#[trigger] init[i]) is Ok by {
                    assert(results[i] is Ok);
                }
            }
        }
    }
}

/// The names of services in routes.
pub open spec fn labels(services: Seq<ServiceView>) -> Seq<Result<Seq<char>, ErrorView>> {
    services.map_values(|s: ServiceView| s.label())
}

/// The last service of the name.
pub open spec fn last_labelled(services: Seq<ServiceView>, name: Seq<char>) -> Option<ServiceView>
    decreases services.len(),
{
    if services.len() == 0 {
        None
    } else if services.last().label() == Ok::<Seq<char>, ErrorView>(name) {
        Some(services.last())
    } else {
        last_labelled(services.drop_last(), name)
    }
}

/// What stands for the shared service in a cluster with the services `own`: the service of
/// the same name among them, or else the shared one.
pub open spec fn overridden(own: Seq<ServiceView>, shared: ServiceView) -> ServiceView {
    match last_labelled(own, shared.label()->Ok_0) {
        Some(s) => s,
        None => shared,
    }
}

/// The services of a cluster: the shared ones, each unless overridden, then those of its own
/// whose name no shared one has.
pub open spec fn effective_services(shared: Seq<ServiceView>, own: Seq<ServiceView>) -> Seq<
    ServiceView,
> {
    shared.map_values(|s: ServiceView| overridden(own, s)) + own.filter(
        |s: ServiceView| !service::bears_label(shared, s.label()->Ok_0),
    )
}

/// The forwards of services in a cluster.
pub open spec fn forwards_of(services: Seq<ServiceView>, cluster: Seq<char>, context: Seq<char>) -> Seq<
    Result<ForwardView, ErrorView>,
> {
    services.map_values(|s: ServiceView| s.forward(cluster, context))
}

/// The position of the first cluster, other than `all`, that is reached by the context.
pub open spec fn serving(clusters: Seq<(Seq<char>, ClusterView)>, context: Seq<char>) -> Option<int>
    decreases clusters.len(),
{
    if clusters.len() == 0 {
        None
    } else if clusters[0].0 != "all"@ && clusters[0].1.context == Some(context) {
        Some(0)
    } else {
        match serving(clusters.drop_first(), context) {
            Some(i) => Some(i + 1),
            None => None,
        }
    }
}

/// The first forward of the route.
pub open spec fn route_position(forwards: Seq<ForwardView>, route: Seq<char>) -> Option<int>
    decreases forwards.len(),
{
    if forwards.len() == 0 {
        None
    } else if forwards[0].route == route {
        Some(0)
    } else {
        match route_position(forwards.drop_first(), route) {
            Some(i) => Some(i + 1),
            None => None,
        }
    }
}

/// `first` and then `more`, unless a route comes up twice.
pub open spec fn merged(first: Seq<ForwardView>, more: Seq<ForwardView>) -> Result<
    Seq<ForwardView>,
    ErrorView,
>
    decreases more.len(),
{
    if more.len() == 0 {
        Ok(first)
    } else {
        match route_position(first, more[0].route) {
            Some(i) => Err(
                ErrorView::DuplicateRoute {
                    previous: first[i].context,
                    context: more[0].context,
                    route: more[0].route,
                },
            ),
            None => merged(first.push(more[0]), more.drop_first()),
        }
    }
}

impl ConfigView {
    /// The services that every cluster has.
    pub open spec fn shared_services(self) -> Seq<ServiceView> {
        match config::lookup(self.clusters, "all"@) {
            Some(cluster) => cluster.services,
            None => seq![],
        }
    }

    /// The forwards in a kube context, or the first reason for which there are none: no shared
    /// service, then no own service, then no forward may lack what it needs.
    pub open spec fn forwards(self, context: Seq<char>) -> Result<Seq<ForwardView>, ErrorView> {
        match serving(self.clusters, context) {
            None => Ok(seq![]),
            Some(i) => {
                let (name, cluster) = self.clusters[i];
                let shared = self.shared_services();
                match (collect(labels(shared)), collect(labels(cluster.services))) {
                    (Err(e), _) => Err(e),
                    (_, Err(e)) => Err(e),
                    _ => collect(
                        forwards_of(effective_services(shared, cluster.services), name, context),
                    ),
                }
            },
        }
    }

    /// The forwards in several kube contexts, in turn, without those that are ignored.
    pub open spec fn all_forwards(self, contexts: Seq<Seq<char>>) -> Result<
        Seq<ForwardView>,
        ErrorView,
    >
        decreases contexts.len(),
    {
        if contexts.len() == 0 {
            Ok(seq![])
        } else {
            match self.all_forwards(contexts.drop_last()) {
                Err(e) => Err(e),
                Ok(first) => if self.ignore.contains(contexts.last()) {
                    Ok(first)
                } else {
                    match self.forwards(contexts.last()) {
                        Err(e) => Err(e),
                        Ok(more) => merged(first, more),
                    }
                },
            }
        }
    }
}

/// Whether a result is the one that `expected` describes.
pub open spec fn forwards_result(
    r: Result<Vec<ForwardSpec>, ConfigError>,
    expected: Result<Seq<ForwardView>, ErrorView>,
) -> bool {
    match (r, expected) {
        (Ok(f), Ok(g)) => config::forwards_view(f@) == g,
        (Err(e), Err(f)) => e@ == f,
        _ => false,
    }
}

/// The names of services in routes.
fn labels_of(services: &Vec<Service>) -> (r: Result<Vec<String>, ConfigError>)
    ensures
        match (r, collect(labels(config::services_view(services@)))) {
            (Ok(f), Ok(g)) => config::texts_view(f@) == g,
            (Err(e), Err(f)) => e@ == f,
            _ => false,
        },
{
    let ghost results = labels(config::services_view(services@));
    let mut names: Vec<String> = Vec::new();
    let n: usize = services.len();
    assert(results.take(0) =~= seq![]);
    assert(config::texts_view(names@) =~= seq![]);
    for i in 0..n
        invariant
            n == services@.len(),
            results == labels(config::services_view(services@)),
            collect(results.take(i as int)) == Ok::<Seq<Seq<char>>, ErrorView>(
                config::texts_view(names@),
            ),
    {
        assert(results[i as int] == services@[i as int]@.label());
        assert(results.take(i + 1).drop_last() =~= results.take(i as int));
        proof {
            lemma_collect_prefix(results, i + 1);
        }
        let ghost before = names@;
        match services[i].route_name() {
            Err(e) => return Err(e),
            Ok(name) => {
                names.push(name);
                assert(config::texts_view(names@) =~= config::texts_view(before).push(name@));
            },
        }
    }
    assert(results.take(n as int) =~= results);
    Ok(names)
}

/// The position of a text among others.
fn text_position(texts: &Vec<String>, wanted: &str) -> (r: Option<usize>)
    ensures
        r matches Some(i) ==> i < texts@.len() && texts@[i as int]@ == wanted@ && forall|j: int|
            0 <= j < i ==> (#[trigger] texts@[j])@ != wanted@,
        r is None ==> forall|j: int| 0 <= j < texts@.len() ==> (#[trigger] texts@[j])@ != wanted@,
        r is Some <==> config::texts_view(texts@).contains(wanted@),
{
    let n: usize = texts.len();
    for i in 0..n
        invariant
            n == texts@.len(),
            forall|j: int| 0 <= j < i ==> (#[trigger] texts@[j])@ != wanted@,
    {
        if text::same(texts[i].as_str(), wanted) {
            assert(config::texts_view(texts@)[i as int] == wanted@);
            return Some(i);
        }
    }
    assert(!config::texts_view(texts@).contains(wanted@)) by {
        if config::texts_view(texts@).contains(wanted@) {
            let j = choose|j: int|
                0 <= j < texts@.len() && config::texts_view(texts@)[j] == wanted@;
            assert(texts@[j]@ == wanted@);
        }
    }
    None
}

/// The position of the last service of a name, where `names` are the names of `services`.
fn last_named(names: &Vec<String>, wanted: &str, Ghost(services): Ghost<Seq<ServiceView>>) -> (r:
    Option<usize>)
    requires
        names@.len() == services.len(),
        forall|i: int|
            0 <= i < services.len() ==> (#[trigger] services[i]).label() == Ok::<
                Seq<char>,
                ErrorView,
            >(names@[i]@),
    ensures
        r matches Some(i) ==> i < services.len() && last_labelled(services, wanted@) == Some(
            services[i as int],
        ),
        r is None ==> last_labelled(services, wanted@) is None,
{
    let mut i: usize = names.len();
    assert(services.take(i as int) =~= services);
    while i > 0
        invariant
            i <= names@.len(),
            names@.len() == services.len(),
            forall|i: int|
                0 <= i < services.len() ==> (#[trigger] services[i]).label() == Ok::<
                    Seq<char>,
                    ErrorView,
                >(names@[i]@),
            last_labelled(services, wanted@) == last_labelled(services.take(i as int), wanted@),
        decreases i,
    {
        assert(services.take(i as int).last() == services[i - 1]);
        if text::same(names[i - 1].as_str(), wanted) {
            return Some(i - 1);
        }
        assert(services.take(i as int).drop_last() =~= services.take(i - 1));
        i = i - 1;
    }
    None
}

/// The position of the forward of a route.
fn forward_position(forwards: &Vec<ForwardSpec>, route: &str) -> (r: Option<usize>)
    ensures
        r matches Some(i) ==> i < forwards@.len() && route_position(
            config::forwards_view(forwards@),
            route@,
        ) == Some(i as int),
        r is None ==> route_position(config::forwards_view(forwards@), route@) is None,
{
    let ghost all = config::forwards_view(forwards@);
    let n: usize = forwards.len();
    assert(all.skip(0) =~= all);
    for i in 0..n
        invariant
            n == forwards@.len(),
            all == config::forwards_view(forwards@),
            match route_position(all.skip(i as int), route@) {
                Some(k) => route_position(all, route@) == Some(k + i),
                None => route_position(all, route@) is None,
            },
    {
        assert(all.skip(i as int)[0] == forwards@[i as int]@);
        if text::same(forwards[i].route.as_str(), route) {
            return Some(i);
        }
        assert(all.skip(i as int).drop_first() =~= all.skip(i + 1));
    }
    None
}

impl Config {
    /// Whether the configuration says to leave the kube context alone.
    pub fn ignored_context(&self, context: &str) -> (b: bool)
        ensures
            b == self@.ignore.contains(context@),
    {
        text_position(&self.contexts.ignore, context).is_some()
    }

    /// The position of the first cluster, other than `all`, that is reached by the context.
    fn cluster_position(&self, context: &str) -> (r: Option<usize>)
        ensures
            r matches Some(i) ==> i < self.clusters@.len() && serving(self@.clusters, context@)
                == Some(i as int),
            r is None ==> serving(self@.clusters, context@) is None,
    {
        let ghost all = self.clusters@;
        let n: usize = self.clusters.len();
        assert(all.skip(0) =~= all);
        for i in 0..n
            invariant
                n == all.len(),
                all == self.clusters@,
                match serving(all.skip(i as int), context@) {
                    Some(k) => serving(all, context@) == Some(k + i),
                    None => serving(all, context@) is None,
                },
        {
            assert(all.skip(i as int)[0] == all[i as int]);
            if !text::same(self.clusters.name_at(i), "all") {
                if let Some(named) = &self.clusters.cluster_at(i).context {
                    if text::same(named.as_str(), context) {
                        return Some(i);
                    }
                }
            }
            assert(all.skip(i as int).drop_first() =~= all.skip(i + 1));
        }
        None
    }

    /// Whether a cluster is reached by the kube context.
    pub fn configured_context(&self, context: &str) -> (b: bool)
        ensures
            b == (serving(self@.clusters, context@) is Some),
    {
        self.cluster_name_for_context(context).is_some()
    }

    /// The name of the cluster that is reached by the kube context.
    pub fn cluster_name_for_context(&self, context: &str) -> (r: Option<&str>)
        ensures
            match (r, serving(self@.clusters, context@)) {
                (Some(name), Some(i)) => name@ == self@.clusters[i].0,
                (None, None) => true,
                _ => false,
            },
    {
        match self.cluster_position(context) {
            Some(i) => Some(self.clusters.name_at(i)),
            None => None,
        }
    }

    /// The forwards in a kube context.
    pub fn forwards_for_context(&self, context: &str) -> (r: Result<Vec<ForwardSpec>, ConfigError>)
        ensures
            forwards_result(r, self@.forwards(context@)),
    {
        let mut forwards: Vec<ForwardSpec> = Vec::new();
        assert(config::forwards_view(forwards@) =~= seq![]);
        let at: usize = match self.cluster_position(context) {
            None => return Ok(forwards),
            Some(at) => at,
        };
        let name = self.clusters.name_at(at);
        let own = &self.clusters.cluster_at(at).services;
        let none: Vec<Service> = Vec::new();
        let shared: &Vec<Service> = match self.clusters.get("all") {
            Some(cluster) => &cluster.services,
            None => &none,
        };
        let ghost shared_view = config::services_view(shared@);
        let ghost own_view = config::services_view(own@);
        assert(shared_view =~= self@.shared_services());
        assert(own_view =~= self@.clusters[at as int].1.services);
        proof {
            lemma_collect_ok(labels(shared_view));
            lemma_collect_ok(labels(own_view));
        }
        let shared_names = match labels_of(shared) {
            Err(e) => return Err(e),
            Ok(names) => names,
        };
        let own_names = match labels_of(own) {
            Err(e) => return Err(e),
            Ok(names) => names,
        };
        proof {
            assert forall|i: int| 0 <= i < shared_view.len() implies (
            #[trigger] shared_view[i]).label() == Ok::<Seq<char>, ErrorView>(shared_names@[i]@) by {
                assert(labels(shared_view)[i] == shared_view[i].label());
                assert(config::texts_view(shared_names@)[i] == shared_names@[i]@);
            }
            assert forall|i: int| 0 <= i < own_view.len() implies (
            #[trigger] own_view[i]).label() == Ok::<Seq<char>, ErrorView>(own_names@[i]@) by {
                assert(labels(own_view)[i] == own_view[i].label());
                assert(config::texts_view(own_names@)[i] == own_names@[i]@);
            }
        }
        let ghost picked = |s: ServiceView| !service::bears_label(shared_view, s.label()->Ok_0);
        let ghost head = shared_view.map_values(|s: ServiceView| overridden(own_view, s));
        let ghost all = effective_services(shared_view, own_view);
        let ghost results = forwards_of(all, name@, context@);
        assert(all == head + own_view.filter(picked));
        assert(results.take(0) =~= seq![]);
        let n: usize = shared.len();
        for i in 0..n
            invariant
                n == shared@.len(),
                shared_view == config::services_view(shared@),
                own_view == config::services_view(own@),
                shared_names@.len() == n,
                own_names@.len() == own@.len(),
                forall|i: int|
                    0 <= i < shared_view.len() ==> (#[trigger] shared_view[i]).label() == Ok::<
                        Seq<char>,
                        ErrorView,
                    >(shared_names@[i]@),
                forall|i: int|
                    0 <= i < own_view.len() ==> (#[trigger] own_view[i]).label() == Ok::<
                        Seq<char>,
                        ErrorView,
                    >(own_names@[i]@),
                head == shared_view.map_values(|s: ServiceView| overridden(own_view, s)),
                all == head + own_view.filter(picked),
                results == forwards_of(all, name@, context@),
                self@.forwards(context@) == collect(results),
                collect(results.take(i as int)) == Ok::<Seq<ForwardView>, ErrorView>(
                    config::forwards_view(forwards@),
                ),
        {
            let service = match last_named(&own_names, shared_names[i].as_str(), Ghost(own_view)) {
                Some(j) => &own[j],
                None => &shared[i],
            };
            assert(shared_view[i as int] == shared@[i as int]@);
            assert(service@ == overridden(own_view, shared_view[i as int]));
            assert(all[i as int] == service@);
            assert(results[i as int] == service@.forward(name@, context@));
            assert(results.take(i + 1).drop_last() =~= results.take(i as int));
            proof {
                lemma_collect_prefix(results, i + 1);
            }
            let ghost before = forwards@;
            match service::forward_spec(name, context, service) {
                Err(e) => return Err(e),
                Ok(forward) => {
                    forwards.push(forward);
                    assert(config::forwards_view(forwards@) =~= config::forwards_view(before).push(
                        forward@,
                    ));
                },
            }
        }
        let m: usize = own.len();
        let ghost mut count: int = n as int;
        assert(own_view.take(0) =~= seq![]);
        assert(own_view.take(0).filter(picked) =~= seq![]);
        for i in 0..m
            invariant
                n == shared@.len(),
                m == own@.len(),
                shared_view == config::services_view(shared@),
                own_view == config::services_view(own@),
                shared_names@.len() == n,
                own_names@.len() == own@.len(),
                forall|i: int|
                    0 <= i < shared_view.len() ==> (#[trigger] shared_view[i]).label() == Ok::<
                        Seq<char>,
                        ErrorView,
                    >(shared_names@[i]@),
                forall|i: int|
                    0 <= i < own_view.len() ==> (#[trigger] own_view[i]).label() == Ok::<
                        Seq<char>,
                        ErrorView,
                    >(own_names@[i]@),
                picked == (|s: ServiceView| !service::bears_label(shared_view, s.label()->Ok_0)),
                head.len() == n,
                all == head + own_view.filter(picked),
                results == forwards_of(all, name@, context@),
                self@.forwards(context@) == collect(results),
                count == n + own_view.take(i as int).filter(picked).len(),
                count <= results.len(),
                collect(results.take(count)) == Ok::<Seq<ForwardView>, ErrorView>(
                    config::forwards_view(forwards@),
                ),
        {
            let ghost service = own_view[i as int];
            assert(service == own@[i as int]@);
            let absent = text_position(&shared_names, own_names[i].as_str()).is_none();
            proof {
                assert(service.label() == Ok::<Seq<char>, ErrorView>(own_names@[i as int]@));
                if service::bears_label(shared_view, own_names@[i as int]@) {
                    let k = choose|k: int|
                        0 <= k < shared_view.len() && (#[trigger] shared_view[k]).label() == Ok::<
                            Seq<char>,
                            ErrorView,
                        >(own_names@[i as int]@);
                    assert(config::texts_view(shared_names@)[k] == own_names@[i as int]@);
                } else {
                    if !absent {
                        let k = choose|k: int|
                            0 <= k < shared_names@.len() && config::texts_view(shared_names@)[k]
                                == own_names@[i as int]@;
                        assert(shared_view[k].label() == Ok::<Seq<char>, ErrorView>(
                            own_names@[i as int]@,
                        ));
                    }
                }
                assert(absent == picked(service));
                lemma_filter_step(own_view, picked, i as int);
            }
            if absent {
                assert(all[count] == service);
                assert(results[count] == service.forward(name@, context@));
                assert(results.take(count + 1).drop_last() =~= results.take(count));
                proof {
                    lemma_collect_prefix(results, count + 1);
                }
                let ghost before = forwards@;
                match service::forward_spec(name, context, &own[i]) {
                    Err(e) => return Err(e),
                    Ok(forward) => {
                        forwards.push(forward);
                        assert(config::forwards_view(forwards@) =~= config::forwards_view(
                            before,
                        ).push(forward@));
                    },
                }
                proof {
                    count = count + 1;
                }
            }
        }
        assert(own_view.take(m as int) =~= own_view);
        assert(results.take(count) =~= results);
        Ok(forwards)
    }
}

impl Config {
    /// The forwards in several kube contexts, in turn, without those that are ignored.
    pub fn forwards_for_contexts(&self, contexts: &[String]) -> (r: Result<
        Vec<ForwardSpec>,
        ConfigError,
    >)
        ensures
            forwards_result(r, self@.all_forwards(config::texts_view(contexts@))),
    {
        let ghost texts = config::texts_view(contexts@);
        let mut forwards: Vec<ForwardSpec> = Vec::new();
        assert(config::forwards_view(forwards@) =~= seq![]);
        assert(texts.take(0) =~= seq![]);
        let n: usize = contexts.len();
        for i in 0..n
            invariant
                n == contexts@.len(),
                texts == config::texts_view(contexts@),
                self@.all_forwards(texts.take(i as int)) == Ok::<Seq<ForwardView>, ErrorView>(
                    config::forwards_view(forwards@),
                ),
        {
            let ghost first = config::forwards_view(forwards@);
            let context = contexts[i].as_str();
            assert(texts.take(i + 1).drop_last() =~= texts.take(i as int));
            assert(texts.take(i + 1).last() == context@);
            proof {
                lemma_all_forwards_prefix(self@, texts, i + 1);
            }
            if !self.ignored_context(context) {
                let more = match self.forwards_for_context(context) {
                    Err(e) => return Err(e),
                    Ok(more) => more,
                };
                let ghost more_view = config::forwards_view(more@);
                let m: usize = more.len();
                assert(more_view.skip(0) =~= more_view);
                for j in 0..m
                    invariant
                        m == more@.len(),
                        more_view == config::forwards_view(more@),
                        merged(first, more_view) == merged(
                            config::forwards_view(forwards@),
                            more_view.skip(j as int),
                        ),
                        self@.all_forwards(texts.take(i + 1)) == merged(first, more_view),
                        self@.all_forwards(texts.take(i + 1)) is Err ==> self@.all_forwards(texts)
                            == self@.all_forwards(texts.take(i + 1)),
                        texts == config::texts_view(contexts@),
                {
                    let ghost before = forwards@;
                    assert(more_view.skip(j as int)[0] == more@[j as int]@);
                    let forward = more[j].clone();
                    if let Some(k) = forward_position(&forwards, forward.route.as_str()) {
                        assert(config::forwards_view(before)[k as int] == before[k as int]@);
                        return Err(
                            ConfigError::DuplicateRoute {
                                previous: forwards[k].context.clone(),
                                context: forward.context,
                                route: forward.route,
                            },
                        );
                    }
                    forwards.push(forward);
                    assert(config::forwards_view(forwards@) =~= config::forwards_view(before).push(
                        forward@,
                    ));
                    assert(more_view.skip(j as int).drop_first() =~= more_view.skip(j + 1));
                }
                assert(more_view.skip(m as int) =~= seq![]);
            }
        }
        assert(texts.take(n as int) =~= texts);
        Ok(forwards)
    }
}

/// What is wrong in the first contexts is wrong in them all.
proof fn lemma_all_forwards_prefix(config: ConfigView, contexts: Seq<Seq<char>>, n: int)
    requires
        0 <= n <= contexts.len(),
    ensures
        config.all_forwards(contexts.take(n)) is Err ==> config.all_forwards(contexts)
            == config.all_forwards(contexts.take(n)),
    decreases contexts.len(),
{
    if n == contexts.len() {
        assert(contexts.take(n) =~= contexts);
    } else {
        assert(contexts.drop_last().take(n) =~= contexts.take(n));
        lemma_all_forwards_prefix(config, contexts.drop_last(), n);
    }
}

/// What the first elements leave in a filter is the beginning of what all leave in it, and
/// the next element follows it there if it passes.
proof fn lemma_filter_step<T>(s: Seq<T>, pred: spec_fn(T) -> bool, i: int)
    requires
        0 <= i < s.len(),
    ensures
        s.take(i + 1).filter(pred).len() == s.take(i).filter(pred).len() + if pred(s[i]) {
            1int
        } else {
            0int
        },
        s.take(i + 1).filter(pred).len() <= s.filter(pred).len(),
        pred(s[i]) ==> s.filter(pred)[s.take(i).filter(pred).len() as int] == s[i],
{
    let upto = s.take(i + 1);
    assert(upto.drop_last() =~= s.take(i));
    reveal(Seq::filter);
    assert(upto.filter(pred) == if pred(s[i]) {
        s.take(i).filter(pred).push(s[i])
    } else {
        s.take(i).filter(pred)
    });
    Seq::filter_distributes_over_add(upto, s.skip(i + 1), pred);
    assert(upto + s.skip(i + 1) =~= s);
}

} // verus!
