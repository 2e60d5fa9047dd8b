//! What can be wrong with a configuration, and how it is reported.

use vstd::prelude::*;

verus! {

/// A reason for which a configuration, or what is asked of it, is refused.
#[derive(Debug)]
pub enum ConfigError {
    /// The proxy listens on port zero.
    ProxyPort,
    /// The shared cluster `all` names a kube context.
    AllWithContext,
    /// The shared cluster `all` holds a service with a port of its own.
    AllWithLocalPort,
    /// The value of `field` is not a lowercase DNS label.
    Label { field: String },
    /// The cluster names no kube context.
    MissingContext { cluster: String },
    /// The cluster names a blank kube context.
    EmptyContext { cluster: String },
    /// The service names a blank namespace.
    EmptyNamespace { scope: String, service: String },
    /// The service names port zero.
    RemotePort { scope: String, service: String },
    /// Two services of one cluster have the same name.
    DuplicateService { scope: String, service: String },
    /// The service has none, or more than one, of `target`, `service` and `pod`.
    TargetCount,
    /// The service has a blank `target`.
    EmptyTarget,
    /// The service has a blank `service`.
    EmptyServiceTarget,
    /// The service has a blank `pod`.
    EmptyPodTarget,
    /// The service has no name, and its target has no resource name to take it from.
    TargetWithoutName { target: String },
    /// The service has no name, and the resource name in its target is empty.
    EmptyResourceName { target: String },
    /// Two kube contexts lead to the same route.
    DuplicateRoute { previous: String, context: String, route: String },
}

/// The mathematical counterpart of [`ConfigError`].
pub enum ErrorView {
    ProxyPort,
    AllWithContext,
    AllWithLocalPort,
    Label { field: Seq<char> },
    MissingContext { cluster: Seq<char> },
    EmptyContext { cluster: Seq<char> },
    EmptyNamespace { scope: Seq<char>, service: Seq<char> },
    RemotePort { scope: Seq<char>, service: Seq<char> },
    DuplicateService { scope: Seq<char>, service: Seq<char> },
    TargetCount,
    EmptyTarget,
    EmptyServiceTarget,
    EmptyPodTarget,
    TargetWithoutName { target: Seq<char> },
    EmptyResourceName { target: Seq<char> },
    DuplicateRoute { previous: Seq<char>, context: Seq<char>, route: Seq<char> },
}

impl View for ConfigError {
    type V = ErrorView;

    open spec fn view(&self) -> ErrorView {
        match self {
            ConfigError::ProxyPort => ErrorView::ProxyPort,
            ConfigError::AllWithContext => ErrorView::AllWithContext,
            ConfigError::AllWithLocalPort => ErrorView::AllWithLocalPort,
            ConfigError::Label { field } => ErrorView::Label { field: field@ },
            ConfigError::MissingContext { cluster } => ErrorView::MissingContext {
                cluster: cluster@,
            },
            ConfigError::EmptyContext { cluster } => ErrorView::EmptyContext { cluster: cluster@ },
            ConfigError::EmptyNamespace { scope, service } => ErrorView::EmptyNamespace {
                scope: scope@,
                service: service@,
            },
            ConfigError::RemotePort { scope, service } => ErrorView::RemotePort {
                scope: scope@,
                service: service@,
            },
            ConfigError::DuplicateService { scope, service } => ErrorView::DuplicateService {
                scope: scope@,
                service: service@,
            },
            ConfigError::TargetCount => ErrorView::TargetCount,
            ConfigError::EmptyTarget => ErrorView::EmptyTarget,
            ConfigError::EmptyServiceTarget => ErrorView::EmptyServiceTarget,
            ConfigError::EmptyPodTarget => ErrorView::EmptyPodTarget,
            ConfigError::TargetWithoutName { target } => ErrorView::TargetWithoutName {
                target: target@,
            },
            ConfigError::EmptyResourceName { target } => ErrorView::EmptyResourceName {
                target: target@,
            },
            ConfigError::DuplicateRoute { previous, context, route } => ErrorView::DuplicateRoute {
                previous: previous@,
                context: context@,
                route: route@,
            },
        }
    }
}

/// What `std`'s debug formatting makes of a text: the text in double quotes, with escapes.
pub uninterp spec fn debug_text(s: Seq<char>) -> Seq<char>;

/// `format!("{:?}")` on a `str`: a function of the text alone, named [`debug_text`].
/// Which characters are escaped, and how, is left unsaid.
#[verifier::external_body]
pub(crate) fn quoted(s: &str) -> (r: String)
    ensures
        r@ == debug_text(s@),
{
    format!("{:?}", s)
}

impl ErrorView {
    /// The two texts of the error that its report quotes; empty where it quotes none.
    pub open spec fn quotes(self) -> (Seq<char>, Seq<char>) {
        match self {
            ErrorView::TargetWithoutName { target } => (target, seq![]),
            ErrorView::EmptyResourceName { target } => (target, seq![]),
            ErrorView::DuplicateRoute { previous, context, .. } => (previous, context),
            _ => (seq![], seq![]),
        }
    }

    /// The sentence that reports the error, with `first` and `second` for its quoted texts.
    pub open spec fn sentence(self, first: Seq<char>, second: Seq<char>) -> Seq<char> {
        match self {
            ErrorView::ProxyPort => "proxy.port must be between 1 and 65535"@,
            ErrorView::AllWithContext => "clusters.all must not define a context"@,
            ErrorView::AllWithLocalPort => "clusters.all must not define a local_port"@,
            ErrorView::Label { field } => field
                + " must be a lowercase DNS label (letters, numbers, and hyphens)"@,
            ErrorView::MissingContext { cluster } => "clusters."@ + cluster
                + " must define a context"@,
            ErrorView::EmptyContext { cluster } => "clusters."@ + cluster
                + " has an empty context"@,
            ErrorView::EmptyNamespace { scope, service } => scope + " service "@ + service
                + " has an empty namespace"@,
            ErrorView::RemotePort { scope, service } => scope + " service "@ + service
                + " has an invalid remote_port"@,
            ErrorView::DuplicateService { scope, service } => scope + " defines service "@ + service
                + " more than once"@,
            ErrorView::TargetCount
            => "service must define exactly one of target, service, or pod"@,
            ErrorView::EmptyTarget => "service has an empty target"@,
            ErrorView::EmptyServiceTarget => "service has an empty service target"@,
            ErrorView::EmptyPodTarget => "service has an empty pod target"@,
            ErrorView::TargetWithoutName { .. } => "target "@ + first
                + " must include a resource name; set service.name explicitly"@,
            ErrorView::EmptyResourceName { .. } => "target "@ + first
                + " has an empty resource name"@,
            ErrorView::DuplicateRoute { route, .. } => "contexts "@ + first + " and "@ + second
                + " produce the same route "@ + route,
        }
    }
}

/// The concatenation of four texts.
fn joined(a: &str, b: &str, c: &str, d: &str) -> (r: String)
    ensures
        r@ == a@ + b@ + c@ + d@,
{
    a.to_owned().concat(b).concat(c).concat(d)
}

impl ConfigError {
    /// The sentence that reports the error.
    pub fn message(&self) -> (r: String)
        ensures
            r@ == self@.sentence(debug_text(self@.quotes().0), debug_text(self@.quotes().1)),
    {
        let (first, second) = match self {
            ConfigError::TargetWithoutName { target } => (target.clone(), String::new()),
            ConfigError::EmptyResourceName { target } => (target.clone(), String::new()),
            ConfigError::DuplicateRoute { previous, context, .. } => (
                previous.clone(),
                context.clone(),
            ),
            _ => (String::new(), String::new()),
        };
        self.message_quoting(quoted(first.as_str()).as_str(), quoted(second.as_str()).as_str())
    }

    /// The sentence that reports the error, with `first` and `second` for its quoted texts.
    pub fn message_quoting(&self, first: &str, second: &str) -> (r: String)
        ensures
            r@ == self@.sentence(first@, second@),
    {
        match self {
            ConfigError::ProxyPort => "proxy.port must be between 1 and 65535".to_owned(),
            ConfigError::AllWithContext => "clusters.all must not define a context".to_owned(),
            ConfigError::AllWithLocalPort => "clusters.all must not define a local_port".to_owned(),
            ConfigError::Label { field } => field.clone().concat(
                " must be a lowercase DNS label (letters, numbers, and hyphens)",
            ),
            ConfigError::MissingContext { cluster } => "clusters.".to_owned().concat(
                cluster.as_str(),
            ).concat(" must define a context"),
            ConfigError::EmptyContext { cluster } => "clusters.".to_owned().concat(
                cluster.as_str(),
            ).concat(" has an empty context"),
            ConfigError::EmptyNamespace { scope, service } => joined(
                scope.as_str(),
                " service ",
                service.as_str(),
                " has an empty namespace",
            ),
            ConfigError::RemotePort { scope, service } => joined(
                scope.as_str(),
                " service ",
                service.as_str(),
                " has an invalid remote_port",
            ),
            ConfigError::DuplicateService { scope, service } => joined(
                scope.as_str(),
                " defines service ",
                service.as_str(),
                " more than once",
            ),
            ConfigError::TargetCount
            => "service must define exactly one of target, service, or pod".to_owned(),
            ConfigError::EmptyTarget => "service has an empty target".to_owned(),
            ConfigError::EmptyServiceTarget => "service has an empty service target".to_owned(),
            ConfigError::EmptyPodTarget => "service has an empty pod target".to_owned(),
            ConfigError::TargetWithoutName { .. } => "target ".to_owned().concat(first).concat(
                " must include a resource name; set service.name explicitly",
            ),
            ConfigError::EmptyResourceName { .. } => "target ".to_owned().concat(first).concat(
                " has an empty resource name",
            ),
            ConfigError::DuplicateRoute { route, .. } => joined(
                "contexts ",
                first,
                " and ",
                second,
            ).concat(" produce the same route ").concat(route.as_str()),
        }
    }
}

} // verus!
