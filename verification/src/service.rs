//! The rules for one service: its target, its name, and the forward that it becomes.

use vstd::prelude::*;

use crate::config::{ForwardSpec, ForwardView, Service, ServiceView};
use crate::error::{ConfigError, ErrorView};
use crate::route;
use crate::text;

verus! {

/// Whether a text is a lowercase DNS label: at most 63 letters, digits and hyphens, with no
/// hyphen at either end.
pub open spec fn is_label(s: Seq<char>) -> bool {
    &&& 1 <= s.len() <= 63
    &&& forall|i: int| 0 <= i < s.len() ==> label_char(#[trigger] s[i])
    &&& s[0] != '-'
    &&& s.last() != '-'
}

/// Whether a character may stand in a lowercase DNS label.
pub open spec fn label_char(c: char) -> bool {
    'a' <= c <= 'z' || '0' <= c <= '9' || c == '-'
}

/// Whether exactly one of three is there.
pub open spec fn exactly_one(a: bool, b: bool, c: bool) -> bool {
    (a && !b && !c) || (!a && b && !c) || (!a && !b && c)
}

impl ServiceView {
    /// What `kubectl` is asked to forward to, or why there is nothing to ask for.
    pub open spec fn kubectl_target(self) -> Result<Seq<char>, ErrorView> {
        if !exactly_one(self.target is Some, self.service is Some, self.pod is Some) {
            Err(ErrorView::TargetCount)
        } else if self.target is Some {
            if text::blank(self.target->0) {
                Err(ErrorView::EmptyTarget)
            } else {
                Ok(self.target->0)
            }
        } else if self.service is Some {
            if text::blank(self.service->0) {
                Err(ErrorView::EmptyServiceTarget)
            } else {
                Ok("svc/"@ + self.service->0)
            }
        } else {
            if text::blank(self.pod->0) {
                Err(ErrorView::EmptyPodTarget)
            } else {
                Ok("pod/"@ + self.pod->0)
            }
        }
    }

    /// The name of the service in routes: the one it is given, or else what follows the last
    /// slash of its target.
    pub open spec fn label(self) -> Result<Seq<char>, ErrorView> {
        if self.name is Some {
            Ok(self.name->0)
        } else {
            match self.kubectl_target() {
                Err(e) => Err(e),
                Ok(target) => match text::rfind_char(target, '/') {
                    None => Err(ErrorView::TargetWithoutName { target }),
                    Some(i) => if i + 1 == target.len() {
                        Err(ErrorView::EmptyResourceName { target })
                    } else {
                        Ok(target.skip(i + 1))
                    },
                },
            }
        }
    }

    /// The forward that the service becomes in a cluster.
    pub open spec fn forward(self, cluster: Seq<char>, context: Seq<char>) -> Result<
        ForwardView,
        ErrorView,
    > {
        match (self.label(), self.kubectl_target()) {
            (Err(e), _) => Err(e),
            (_, Err(e)) => Err(e),
            (Ok(name), Ok(target)) => Ok(
                ForwardView {
                    route: route::route_of(cluster, name),
                    context,
                    namespace: self.namespace,
                    target,
                    remote_port: self.remote_port,
                    local_port: self.local_port,
                },
            ),
        }
    }

    /// What is wrong with the service that stands after `earlier` in a scope.
    pub open spec fn fault(self, scope: Seq<char>, earlier: Seq<ServiceView>) -> Option<ErrorView> {
        match self.label() {
            Err(e) => Some(e),
            Ok(name) => if !is_label(name) {
                Some(ErrorView::Label { field: "service name"@ })
            } else if text::blank(self.namespace) {
                Some(ErrorView::EmptyNamespace { scope, service: name })
            } else if self.remote_port == 0 {
                Some(ErrorView::RemotePort { scope, service: name })
            } else if self.kubectl_target() is Err {
                Some(self.kubectl_target()->Err_0)
            } else if bears_label(earlier, name) {
                Some(ErrorView::DuplicateService { scope, service: name })
            } else {
                None
            },
        }
    }
}

/// Whether one of the services has the name.
pub open spec fn bears_label(services: Seq<ServiceView>, name: Seq<char>) -> bool {
    exists|i: int| 0 <= i < services.len() && (#[trigger] services[i]).label() == Ok::<
        Seq<char>,
        ErrorView,
    >(name)
}

/// The first thing that is wrong with the services of a scope.
pub open spec fn services_fault(scope: Seq<char>, services: Seq<ServiceView>) -> Option<ErrorView>
    decreases services.len(),
{
    if services.len() == 0 {
        None
    } else {
        match services_fault(scope, services.drop_last()) {
            Some(e) => Some(e),
            None => services.last().fault(scope, services.drop_last()),
        }
    }
}

/// Whether a result is the one that `expected` describes.
pub open spec fn text_result(
    r: Result<String, ConfigError>,
    expected: Result<Seq<char>, ErrorView>,
) -> bool {
    match (r, expected) {
        (Ok(s), Ok(t)) => s@ == t,
        (Err(e), Err(f)) => e@ == f,
        _ => false,
    }
}

/// Whether a result reports the fault, or that there is none.
pub open spec fn reports(r: Result<(), ConfigError>, fault: Option<ErrorView>) -> bool {
    match r {
        Ok(_) => fault is None,
        Err(e) => fault == Some(e@),
    }
}

impl Service {
    /// What `kubectl` is asked to forward to.
    pub fn target_name(&self) -> (r: Result<String, ConfigError>)
        ensures
            text_result(r, self@.kubectl_target()),
    {
        let a = self.target.is_some();
        let b = self.service.is_some();
        let c = self.pod.is_some();
        if !((a && !b && !c) || (!a && b && !c) || (!a && !b && c)) {
            return Err(ConfigError::TargetCount);
        }
        if let Some(target) = &self.target {
            if text::is_blank(target.as_str()) {
                return Err(ConfigError::EmptyTarget);
            }
            return Ok(target.clone());
        }
        if let Some(service) = &self.service {
            if text::is_blank(service.as_str()) {
                return Err(ConfigError::EmptyServiceTarget);
            }
            return Ok("svc/".to_owned().concat(service.as_str()));
        }
        match &self.pod {
            Some(pod) => {
                if text::is_blank(pod.as_str()) {
                    return Err(ConfigError::EmptyPodTarget);
                }
                Ok("pod/".to_owned().concat(pod.as_str()))
            },
            None => Err(ConfigError::TargetCount),
        }
    }

    /// The name of the service in routes.
    pub fn route_name(&self) -> (r: Result<String, ConfigError>)
        ensures
            text_result(r, self@.label()),
    {
        if let Some(name) = &self.name {
            return Ok(name.clone());
        }
        let target = match self.target_name() {
            Err(e) => return Err(e),
            Ok(target) => target,
        };
        let v = text::chars_of(target.as_str());
        let n: usize = v.len();
        let slash: usize = match text::last_index_of(v.as_slice(), '/') {
            None => return Err(ConfigError::TargetWithoutName { target }),
            Some(slash) => slash,
        };
        if slash + 1 == n {
            return Err(ConfigError::EmptyResourceName { target });
        }
        let name = target.as_str().substring_char(slash + 1, n).to_owned();
        assert(name@ =~= target@.skip(slash + 1));
        Ok(name)
    }
}

/// The forward that a service becomes in a cluster.
pub fn forward_spec(cluster_name: &str, context: &str, service: &Service) -> (r: Result<
    ForwardSpec,
    ConfigError,
>)
    ensures
        match (r, service@.forward(cluster_name@, context@)) {
            (Ok(f), Ok(g)) => f@ == g,
            (Err(e), Err(f)) => e@ == f,
            _ => false,
        },
{
    let name = match service.route_name() {
        Err(e) => return Err(e),
        Ok(name) => name,
    };
    let target = match service.target_name() {
        Err(e) => return Err(e),
        Ok(target) => target,
    };
    Ok(
        ForwardSpec {
            route: route::route_name(cluster_name, name.as_str()),
            context: context.to_owned(),
            namespace: service.namespace.clone(),
            target,
            remote_port: service.remote_port,
            local_port: service.local_port,
        },
    )
}

/// Refuses a value that is not a lowercase DNS label.
pub fn validate_label(field: &str, value: &str) -> (r: Result<(), ConfigError>)
    ensures
        match r {
            Ok(_) => is_label(value@),
            Err(e) => !is_label(value@) && e@ == (ErrorView::Label { field: field@ }),
        },
{
    let v = text::chars_of(value);
    let n: usize = v.len();
    let mut valid = n >= 1 && n <= 63 && v[0] != '-' && v[n - 1] != '-';
    let mut i: usize = 0;
    while valid && i < n
        invariant
            n == v@.len(),
            v@ == value@,
            i <= n,
            valid ==> 1 <= n <= 63 && v@[0] != '-' && v@[n - 1] != '-',
            valid ==> forall|j: int| 0 <= j < i ==> label_char(#[trigger] v@[j]),
            is_label(value@) ==> valid,
        decreases n - i,
    {
        let c = v[i];
        assert(value@[i as int] == c);
        if !(('a' <= c && c <= 'z') || ('0' <= c && c <= '9') || c == '-') {
            assert(!label_char(c));
            valid = false;
        }
        i = i + 1;
    }
    if !valid {
        return Err(ConfigError::Label { field: field.to_owned() });
    }
    Ok(())
}

/// Refuses the services of a scope for the first thing that is wrong with them.
pub fn validate_services(scope: &str, services: &Vec<Service>) -> (r: Result<(), ConfigError>)
    ensures
        reports(r, services_fault(scope@, crate::config::services_view(services@))),
{
    let ghost all = crate::config::services_view(services@);
    let mut names: Vec<String> = Vec::new();
    let n: usize = services.len();
    assert(all.take(0) =~= Seq::<ServiceView>::empty());
    for i in 0..n
        invariant
            n == services@.len(),
            all == crate::config::services_view(services@),
            names@.len() == i,
            forall|j: int|
                0 <= j < i ==> (#[trigger] all[j]).label() == Ok::<Seq<char>, ErrorView>(
                    names@[j]@,
                ),
            services_fault(scope@, all.take(i as int)) is None,
    {
        let ghost earlier = all.take(i as int);
        let service = &services[i];
        assert(all[i as int] == service@);
        assert(all.take(i + 1).drop_last() =~= earlier);
        assert(all.take(i + 1).last() == service@);
        assert(services_fault(scope@, all.take(i + 1)) == service@.fault(scope@, earlier));
        proof {
            lemma_first_fault(scope@, all, i + 1);
        }
        let name = match service.route_name() {
            Err(e) => return Err(e),
            Ok(name) => name,
        };
        if let Err(e) = validate_label("service name", name.as_str()) {
            return Err(e);
        }
        if text::is_blank(service.namespace.as_str()) {
            return Err(ConfigError::EmptyNamespace { scope: scope.to_owned(), service: name });
        }
        if service.remote_port == 0 {
            return Err(ConfigError::RemotePort { scope: scope.to_owned(), service: name });
        }
        if let Err(e) = service.target_name() {
            return Err(e);
        }
        for j in 0..i
            invariant
                n == services@.len(),
                i < n,
                names@.len() == i,
                all == crate::config::services_view(services@),
                earlier == all.take(i as int),
                forall|k: int|
                    0 <= k < i ==> (#[trigger] all[k]).label() == Ok::<Seq<char>, ErrorView>(
                        names@[k]@,
                    ),
                forall|k: int| 0 <= k < j ==> (#[trigger] names@[k])@ != name@,
                service@.label() == Ok::<Seq<char>, ErrorView>(name@),
                is_label(name@),
                !text::blank(service.namespace@),
                service.remote_port != 0,
                service@.kubectl_target() is Ok,
                services_fault(scope@, all.take(i + 1)) == service@.fault(scope@, earlier),
                services_fault(scope@, all.take(i + 1)) is Some ==> services_fault(scope@, all)
                    == services_fault(scope@, all.take(i + 1)),
        {
            if names[j] == name {
                assert(earlier[j as int] == all[j as int]);
                assert(bears_label(earlier, name@));
                return Err(
                    ConfigError::DuplicateService { scope: scope.to_owned(), service: name },
                );
            }
        }
        assert(!bears_label(earlier, name@)) by {
            if bears_label(earlier, name@) {
                let k = choose|k: int|
                    0 <= k < earlier.len() && (#[trigger] earlier[k]).label() == Ok::<
                        Seq<char>,
                        ErrorView,
                    >(name@);
                assert(all[k] == earlier[k]);
            }
        }
        names.push(name);
    }
    assert(all.take(n as int) =~= all);
    Ok(())
}

/// A fault among the first services is the fault of them all.
proof fn lemma_first_fault(scope: Seq<char>, services: Seq<ServiceView>, n: int)
    requires
        0 <= n <= services.len(),
    ensures
        services_fault(scope, services.take(n)) is Some ==> services_fault(scope, services)
            == services_fault(scope, services.take(n)),
    decreases services.len(),
{
    if n == services.len() {
        assert(services.take(n) =~= services);
    } else {
        assert(services.drop_last().take(n) =~= services.take(n));
        lemma_first_fault(scope, services.drop_last(), n);
    }
}

} // verus!
