//! Laws of one service: what it forwards to, its name in routes, and the forward it becomes.

use vstd::prelude::*;

use crate::config::{ForwardView, ServiceView};
use crate::error::ErrorView;
use crate::laws::texts;
use crate::service;
use crate::text;

verus! {

/// A lowercase DNS label has 1 to 63 characters: small letters, digits and hyphens, and a
/// letter or a digit at either end.
pub proof fn labels_are_letters_digits_and_hyphens(s: Seq<char>)
    ensures
        service::is_label(s) <==> {
            &&& 0 < s.len() < 64
            &&& forall|i: int|
                0 <= i < s.len() ==> {
                    let u = #[trigger] s[i] as int;
                    97 <= u <= 122 || 48 <= u <= 57 || u == 45
                }
            &&& s[0] as int != 45
            &&& s[s.len() - 1] as int != 45
        },
{
    if service::is_label(s) {
        assert forall|i: int| 0 <= i < s.len() implies {
            let u = #[trigger] s[i] as int;
            97 <= u <= 122 || 48 <= u <= 57 || u == 45
        } by {
            assert(service::label_char(s[i]));
        }
    }
    if 0 < s.len() < 64 && forall|i: int|
        0 <= i < s.len() ==> {
            let u = #[trigger] s[i] as int;
            97 <= u <= 122 || 48 <= u <= 57 || u == 45
        } {
        assert forall|i: int| 0 <= i < s.len() implies service::label_char(#[trigger] s[i]) by {
            let u = s[i] as int;
            assert(97 <= u <= 122 || 48 <= u <= 57 || u == 45);
        }
    }
}

/// How many of three things are given.
pub open spec fn given(s: ServiceView) -> int {
    (if s.target is Some {
        1int
    } else {
        0
    }) + (if s.service is Some {
        1int
    } else {
        0
    }) + (if s.pod is Some {
        1int
    } else {
        0
    })
}

/// What `kubectl` is asked for is the target itself, or the service with `svc/` before it, or
/// the pod with `pod/` before it: the one of them that is given. A service that gives none, or
/// several, or a blank one, is refused for just that.
pub proof fn targets_are_what_is_given(s: ServiceView)
    ensures
        given(s) != 1 <==> s.kubectl_target() == Err::<Seq<char>, ErrorView>(ErrorView::TargetCount),
        given(s) == 1 ==> {
            &&& s.target matches Some(t) ==> s.kubectl_target() == if text::blank(t) {
                Err::<Seq<char>, ErrorView>(ErrorView::EmptyTarget)
            } else {
                Ok(t)
            }
            &&& s.service matches Some(t) ==> s.kubectl_target() == if text::blank(t) {
                Err::<Seq<char>, ErrorView>(ErrorView::EmptyServiceTarget)
            } else {
                Ok(seq!['s', 'v', 'c', '/'] + t)
            }
            &&& s.pod matches Some(t) ==> s.kubectl_target() == if text::blank(t) {
                Err::<Seq<char>, ErrorView>(ErrorView::EmptyPodTarget)
            } else {
                Ok(seq!['p', 'o', 'd', '/'] + t)
            }
        },
{
    reveal_strlit("svc/");
    reveal_strlit("pod/");
    assert("svc/"@ =~= seq!['s', 'v', 'c', '/']);
    assert("pod/"@ =~= seq!['p', 'o', 'd', '/']);
}

/// What `kubectl` is asked for depends on nothing else: not on the name of the service, its
/// namespace or its ports.
pub proof fn targets_depend_on_nothing_else(s: ServiceView, t: ServiceView)
    requires
        s.target == t.target,
        s.service == t.service,
        s.pod == t.pod,
    ensures
        s.kubectl_target() == t.kubectl_target(),
{
}

/// The name of a service in routes is the one that it is given. Without one it is what follows
/// the last slash of its target; a target without a slash, or with nothing after it, or none at
/// all, is refused for just that.
pub proof fn names_are_given_or_taken_from_the_target(s: ServiceView)
    ensures
        s.name matches Some(name) ==> s.label() == Ok::<Seq<char>, ErrorView>(name),
        s.name is None ==> match s.kubectl_target() {
            Err(e) => s.label() == Err::<Seq<char>, ErrorView>(e),
            Ok(target) => {
                &&& !target.contains('/') <==> s.label() == Err::<Seq<char>, ErrorView>(
                    ErrorView::TargetWithoutName { target },
                )
                &&& target.len() > 0 && target[target.len() - 1] == '/' <==> s.label() == Err::<
                    Seq<char>,
                    ErrorView,
                >(ErrorView::EmptyResourceName { target })
                &&& s.label() matches Ok(name) ==> name.len() > 0 && !name.contains('/')
                    && target == target.take(target.len() - name.len() - 1).push('/') + name
            },
        },
{
    if s.name is None {
        if let Ok(target) = s.kubectl_target() {
            texts::characters_are_found_where_they_last_stand(target, '/');
            match text::rfind_char(target, '/') {
                None => {
                    assert(!target.contains('/'));
                },
                Some(i) => {
                    assert(target[i] == '/');
                    assert(target.contains('/'));
                    if i + 1 < target.len() {
                        let name = target.skip(i + 1);
                        assert(s.label() == Ok::<Seq<char>, ErrorView>(name));
                        assert(!name.contains('/')) by {
                            if name.contains('/') {
                                let k = choose|k: int| 0 <= k < name.len() && name[k] == '/';
                                assert(target[i + 1 + k] == '/');
                            }
                        }
                        assert(target =~= target.take(i).push('/') + name);
                        assert(target[target.len() - 1] != '/');
                    }
                },
            }
        }
    }
}

/// The forward of a service has the route of its cluster and name, the context, and the
/// namespace, target and ports that the service gives. There is one if and only if the service
/// has a name and a target; otherwise what the name lacks is reported, or else the target.
pub proof fn forwards_say_what_services_say(s: ServiceView, cluster: Seq<char>, context: Seq<char>)
    ensures
        match s.forward(cluster, context) {
            Ok(f) => {
                &&& s.label() is Ok
                &&& s.kubectl_target() is Ok
                &&& f.route == cluster.push('.') + s.label()->Ok_0
                &&& f.context == context
                &&& f.namespace == s.namespace
                &&& f.target == s.kubectl_target()->Ok_0
                &&& f.remote_port == s.remote_port
                &&& f.local_port == s.local_port
            },
            Err(e) => {
                ||| s.label() == Err::<Seq<char>, ErrorView>(e)
                ||| s.label() is Ok && s.kubectl_target() == Err::<Seq<char>, ErrorView>(e)
            },
        },
{
    if let Ok(f) = s.forward(cluster, context) {
        crate::laws::routes::routes_and_hosts_are_spelled(cluster, s.label()->Ok_0);
    }
}

/// What is wrong with a service is reported for the first of these that holds: it has no name;
/// its name is no label; its namespace is blank; its port is zero; it has no target; an earlier
/// service has its name. Nothing is wrong with it if none of them holds.
pub proof fn services_are_refused_for_what_is_wrong(
    s: ServiceView,
    scope: Seq<char>,
    earlier: Seq<ServiceView>,
)
    ensures
        s.label() matches Err(e) ==> s.fault(scope, earlier) == Some(e),
        s.label() matches Ok(name) ==> {
            let repeated = exists|i: int|
                0 <= i < earlier.len() && (#[trigger] earlier[i]).label() == s.label();
            &&& !service::is_label(name) <==> s.fault(scope, earlier) == Some(
                ErrorView::Label { field: "service name"@ },
            )
            &&& service::is_label(name) && text::blank(s.namespace) <==> s.fault(scope, earlier)
                == Some(ErrorView::EmptyNamespace { scope, service: name })
            &&& service::is_label(name) && !text::blank(s.namespace) && s.remote_port == 0 <==> s.fault(
                scope,
                earlier,
            ) == Some(ErrorView::RemotePort { scope, service: name })
            &&& service::is_label(name) && !text::blank(s.namespace) && s.remote_port != 0 ==> {
                &&& s.kubectl_target() matches Err(e) ==> s.fault(scope, earlier) == Some(e)
                &&& s.kubectl_target() is Ok && repeated ==> s.fault(scope, earlier) == Some(
                    ErrorView::DuplicateService { scope, service: name },
                )
                &&& s.kubectl_target() is Ok && !repeated <==> s.fault(scope, earlier) is None
            }
        },
{
    targets_are_what_is_given(s);
    if let Ok(name) = s.label() {
        if service::bears_label(earlier, name) {
            let i = choose|i: int|
                0 <= i < earlier.len() && (#[trigger] earlier[i]).label() == Ok::<
                    Seq<char>,
                    ErrorView,
                >(name);
            assert(earlier[i].label() == s.label());
        }
        if exists|i: int| 0 <= i < earlier.len() && (#[trigger] earlier[i]).label() == s.label() {
            let i = choose|i: int|
                0 <= i < earlier.len() && (#[trigger] earlier[i]).label() == s.label();
            assert(earlier[i].label() == Ok::<Seq<char>, ErrorView>(name));
            assert(service::bears_label(earlier, name));
        }
    }
}

} // verus!
