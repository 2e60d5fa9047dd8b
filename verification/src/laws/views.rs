//! Laws of counterparts: that each says all that its value holds, and that results are what the
//! counterparts say.

use vstd::prelude::*;

use crate::config;
use crate::config::{Cluster, Config, ForwardSpec, ForwardView, Service};
use crate::error::{ConfigError, ErrorView};
use crate::forwards;
use crate::kube::{Directory, KubeError, KubeErrorView};
use crate::proxy::{ActionView, ProxyAction};
use crate::service;
use crate::tray;
use crate::tray::{Command, CommandView, EntryView, MenuEntry, SubEntry, TrayAction, TrayActionView};

verus! {

/// Whether an optional text has the characters that its counterpart says.
pub open spec fn same_text(s: Option<String>, t: Option<Seq<char>>) -> bool {
    match s {
        Some(x) => t == Some(x@),
        None => t is None,
    }
}

/// The counterpart of a service says all that the service does.
pub proof fn services_are_seen_whole(s: Service)
    ensures
        same_text(s.name, s@.name),
        s@.namespace == s.namespace@,
        s@.remote_port == s.remote_port,
        s@.local_port == s.local_port,
        same_text(s.target, s@.target),
        same_text(s.service, s@.service),
        same_text(s.pod, s@.pod),
{
}

/// The counterpart of a cluster says its context and each of its services.
pub proof fn clusters_are_seen_whole(c: Cluster)
    ensures
        same_text(c.context, c@.context),
        c@.services.len() == c.services@.len(),
        forall|i: int| 0 <= i < c.services@.len() ==> #[trigger] c@.services[i] == c.services@[i]@,
{
}

/// The counterpart of a configuration says all that the configuration does.
pub proof fn configurations_are_seen_whole(c: Config)
    ensures
        same_text(c.schema, c@.schema),
        c@.port == c.proxy.port,
        c@.ignore.len() == c.contexts.ignore@.len(),
        forall|i: int|
            0 <= i < c.contexts.ignore@.len() ==> #[trigger] c@.ignore[i] == c.contexts.ignore@[i]@,
        c@.clusters == c.clusters@,
{
}

/// The counterpart of a forward says all that the forward does, and so do those of several.
pub proof fn forwards_are_seen_whole(f: ForwardSpec, all: Seq<ForwardSpec>)
    ensures
        f@.route == f.route@,
        f@.context == f.context@,
        f@.namespace == f.namespace@,
        f@.target == f.target@,
        f@.remote_port == f.remote_port,
        f@.local_port == f.local_port,
        config::forwards_view(all).len() == all.len(),
        forall|i: int| 0 <= i < all.len() ==> #[trigger] config::forwards_view(all)[i] == all[i]@,
{
}

/// The counterparts of texts are their characters.
pub proof fn texts_are_seen_whole(all: Seq<String>)
    ensures
        config::texts_view(all).len() == all.len(),
        forall|i: int| 0 <= i < all.len() ==> #[trigger] config::texts_view(all)[i] == all[i]@,
{
}

/// The counterpart of a directory says the rank and the bytes of each component.
pub proof fn directories_are_seen_whole(d: Directory)
    ensures
        d@.len() == d.parts@.len(),
        forall|i: int|
            0 <= i < d.parts@.len() ==> #[trigger] d@[i] == (d.parts@[i].rank, d.parts@[i].name@),
{
}

/// The counterpart of what becomes of a request says what it is.
pub proof fn request_outcomes_are_seen_whole(status: u16, text: String, port: u16)
    ensures
        (ProxyAction::Reply { status, message: text })@ == (ActionView::Reply {
            status,
            message: text@,
        }),
        (ProxyAction::Connect { route: text, port })@ == (ActionView::Connect {
            route: text@,
            port,
        }),
{
}

/// The counterpart of a command says what it is.
pub proof fn commands_are_seen_whole(text: String)
    ensures
        Command::Toggle(text)@ == CommandView::Toggle(text@),
        Command::CopyUrl(text)@ == CommandView::CopyUrl(text@),
        Command::UpdateTransferStats@ == CommandView::UpdateTransferStats,
        Command::RefreshContexts@ == CommandView::RefreshContexts,
        Command::StopAll@ == CommandView::StopAll,
        Command::Quit@ == CommandView::Quit,
{
}

/// The counterpart of an action says what it is.
pub proof fn actions_are_seen_whole(text: String, forward: ForwardSpec)
    ensures
        TrayAction::Nothing@ == TrayActionView::Nothing,
        TrayAction::Toggle(forward)@ == TrayActionView::Toggle(forward@),
        TrayAction::CopyUrl(text)@ == TrayActionView::CopyUrl(text@),
        TrayAction::ShowTransferStats@ == TrayActionView::ShowTransferStats,
        TrayAction::ReadContexts@ == TrayActionView::ReadContexts,
        TrayAction::StopAll@ == TrayActionView::StopAll,
        TrayAction::Quit@ == TrayActionView::Quit,
{
}

/// Whether an optional command is the one that its counterpart says.
pub open spec fn same_command(c: Option<Command>, d: Option<CommandView>) -> bool {
    match c {
        Some(x) => d == Some(x@),
        None => d is None,
    }
}

/// The counterpart of an item says its label, its command and its submenu.
pub proof fn items_are_seen_whole(
    label: String,
    command: Option<Command>,
    submenu: Option<Vec<SubEntry>>,
    all: Seq<MenuEntry>,
)
    ensures
        ({
            let entry = (MenuEntry::Item { label, command, submenu })@;
            &&& entry is Item
            &&& entry->label == label@
            &&& same_command(command, entry->command)
            &&& submenu is None <==> entry->submenu is None
            &&& submenu matches Some(entries) ==> entry->submenu->0.len() == entries@.len()
                && forall|i: int|
                0 <= i < entries@.len() ==> {
                    let seen = #[trigger] entry->submenu->0[i];
                    seen.label == entries@[i].label@ && same_command(
                        entries@[i].command,
                        seen.command,
                    )
                }
        }),
        MenuEntry::Separator@ == EntryView::Separator,
        tray::menu_view(all).len() == all.len(),
        forall|i: int| 0 <= i < all.len() ==> #[trigger] tray::menu_view(all)[i] == all[i]@,
{
}

/// The counterpart of an error of a configuration says what it is.
pub proof fn errors_are_seen_whole(a: String, b: String, c: String)
    ensures
        ConfigError::ProxyPort@ == ErrorView::ProxyPort,
        ConfigError::AllWithContext@ == ErrorView::AllWithContext,
        ConfigError::AllWithLocalPort@ == ErrorView::AllWithLocalPort,
        (ConfigError::Label { field: a })@ == (ErrorView::Label { field: a@ }),
        (ConfigError::MissingContext { cluster: a })@ == (ErrorView::MissingContext {
            cluster: a@,
        }),
        (ConfigError::EmptyContext { cluster: a })@ == (ErrorView::EmptyContext { cluster: a@ }),
        (ConfigError::EmptyNamespace { scope: a, service: b })@ == (ErrorView::EmptyNamespace {
            scope: a@,
            service: b@,
        }),
        (ConfigError::RemotePort { scope: a, service: b })@ == (ErrorView::RemotePort {
            scope: a@,
            service: b@,
        }),
        (ConfigError::DuplicateService { scope: a, service: b })@ == (
        ErrorView::DuplicateService { scope: a@, service: b@ }),
        ConfigError::TargetCount@ == ErrorView::TargetCount,
        ConfigError::EmptyTarget@ == ErrorView::EmptyTarget,
        ConfigError::EmptyServiceTarget@ == ErrorView::EmptyServiceTarget,
        ConfigError::EmptyPodTarget@ == ErrorView::EmptyPodTarget,
        (ConfigError::TargetWithoutName { target: a })@ == (ErrorView::TargetWithoutName {
            target: a@,
        }),
        (ConfigError::EmptyResourceName { target: a })@ == (ErrorView::EmptyResourceName {
            target: a@,
        }),
        (ConfigError::DuplicateRoute { previous: a, context: b, route: c })@ == (
        ErrorView::DuplicateRoute { previous: a@, context: b@, route: c@ }),
        (KubeError::Failed { report: a })@ == (KubeErrorView::Failed { report: a@ }),
        KubeError::NoContexts@ == KubeErrorView::NoContexts,
{
}

/// A result that reports a fault succeeds if and only if there is none, and otherwise gives that
/// fault.
pub proof fn faults_are_reported(r: Result<(), ConfigError>, fault: Option<ErrorView>)
    requires
        service::reports(r, fault),
    ensures
        r is Ok <==> fault is None,
        r matches Err(e) ==> fault == Some(e@),
{
}

/// A result that is to be a text succeeds if and only if there is one, with that text, and
/// otherwise gives the reason.
pub proof fn texts_are_given_or_the_reason(
    r: Result<String, ConfigError>,
    expected: Result<Seq<char>, ErrorView>,
)
    requires
        service::text_result(r, expected),
    ensures
        r is Ok <==> expected is Ok,
        r matches Ok(s) ==> expected == Ok::<Seq<char>, ErrorView>(s@),
        r matches Err(e) ==> expected == Err::<Seq<char>, ErrorView>(e@),
{
}

/// A result that is to be forwards succeeds if and only if there are any to give, with just
/// those in their order, and otherwise gives the reason.
pub proof fn forwards_are_given_or_the_reason(
    r: Result<Vec<ForwardSpec>, ConfigError>,
    expected: Result<Seq<ForwardView>, ErrorView>,
)
    requires
        forwards::forwards_result(r, expected),
    ensures
        r is Ok <==> expected is Ok,
        r matches Ok(all) ==> expected->Ok_0.len() == all@.len() && forall|i: int|
            0 <= i < all@.len() ==> #[trigger] expected->Ok_0[i] == all@[i]@,
        r matches Err(e) ==> expected == Err::<Seq<ForwardView>, ErrorView>(e@),
{
}

} // verus!
