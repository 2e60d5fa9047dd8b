//! The toolbar menu: what it shows, what its items ask for, and what follows.

use vstd::prelude::*;

use crate::config::{Config, ConfigView, ForwardSpec, ForwardView};
use crate::config;
use crate::error::ConfigError;
use crate::forwards;
use crate::kube;
use crate::labels;
use crate::laws;
use crate::order;
use crate::text;

verus! {

/// What an item of the menu asks for.
#[derive(Debug)]
pub enum Command {
    /// Start or stop the forward of a route.
    Toggle(String),
    /// Copy an address to the clipboard.
    CopyUrl(String),
    /// Show what has gone through the proxy.
    UpdateTransferStats,
    /// Ask `kubectl` for the kube contexts again.
    RefreshContexts,
    /// Stop every forward.
    StopAll,
    /// End the program.
    Quit,
}

/// An item in a submenu.
#[derive(Debug)]
pub struct SubEntry {
    pub label: String,
    pub command: Option<Command>,
}

/// An item in the menu.
#[derive(Debug)]
pub enum MenuEntry {
    Separator,
    Item { label: String, command: Option<Command>, submenu: Option<Vec<SubEntry>> },
}

/// The position of the item that shows what has gone through the proxy.
pub const TRANSFER_STATS_ITEM_INDEX: usize = 1;

/// The mathematical counterpart of [`Command`].
pub enum CommandView {
    Toggle(Seq<char>),
    CopyUrl(Seq<char>),
    UpdateTransferStats,
    RefreshContexts,
    StopAll,
    Quit,
}

/// The mathematical counterpart of [`SubEntry`].
pub struct SubEntryView {
    pub label: Seq<char>,
    pub command: Option<CommandView>,
}

/// The mathematical counterpart of [`MenuEntry`].
pub enum EntryView {
    Separator,
    Item { label: Seq<char>, command: Option<CommandView>, submenu: Option<Seq<SubEntryView>> },
}

impl View for Command {
    type V = CommandView;

    open spec fn view(&self) -> CommandView {
        match self {
            Command::Toggle(route) => CommandView::Toggle(route@),
            Command::CopyUrl(url) => CommandView::CopyUrl(url@),
            Command::UpdateTransferStats => CommandView::UpdateTransferStats,
            Command::RefreshContexts => CommandView::RefreshContexts,
            Command::StopAll => CommandView::StopAll,
            Command::Quit => CommandView::Quit,
        }
    }
}

/// The counterpart of an optional command.
pub open spec fn command_view(command: Option<Command>) -> Option<CommandView> {
    match command {
        Some(c) => Some(c@),
        None => None,
    }
}

impl View for SubEntry {
    type V = SubEntryView;

    open spec fn view(&self) -> SubEntryView {
        SubEntryView { label: self.label@, command: command_view(self.command) }
    }
}

/// The counterparts of the items of a submenu.
pub open spec fn submenu_view(entries: Seq<SubEntry>) -> Seq<SubEntryView> {
    entries.map_values(|e: SubEntry| e@)
}

impl View for MenuEntry {
    type V = EntryView;

    open spec fn view(&self) -> EntryView {
        match self {
            MenuEntry::Separator => EntryView::Separator,
            MenuEntry::Item { label, command, submenu } => EntryView::Item {
                label: label@,
                command: command_view(*command),
                submenu: match submenu {
                    Some(entries) => Some(submenu_view(entries@)),
                    None => None,
                },
            },
        }
    }
}

/// The counterparts of the items of a menu.
pub open spec fn menu_view(entries: Seq<MenuEntry>) -> Seq<EntryView> {
    entries.map_values(|e: MenuEntry| e@)
}

/// An item that asks for nothing.
pub open spec fn plain(label: Seq<char>) -> EntryView {
    EntryView::Item { label, command: None, submenu: None }
}

/// An item that asks for something.
pub open spec fn asking(label: Seq<char>, command: CommandView) -> EntryView {
    EntryView::Item { label, command: Some(command), submenu: None }
}

/// An item with a submenu.
pub open spec fn opening(label: Seq<char>, submenu: Seq<SubEntryView>) -> EntryView {
    EntryView::Item { label, command: None, submenu: Some(submenu) }
}

/// The item that shows where the proxy is.
pub open spec fn tools_entry(proxy_port: u16) -> EntryView {
    opening(
        "Tools"@,
        seq![
            SubEntryView { label: "kubectl"@, command: None },
            SubEntryView {
                label: "Proxy: 127.0.0.1:"@ + text::decimal(proxy_port as nat),
                command: None,
            },
        ],
    )
}

/// The item of a forward in the submenu of its context.
pub open spec fn forward_entry(route: Seq<char>, active: Seq<Seq<char>>) -> SubEntryView {
    SubEntryView {
        label: labels::service_text(route, active.contains(route)),
        command: Some(CommandView::Toggle(route)),
    }
}

/// The submenu of a context with forwards.
pub open spec fn forwards_submenu(all: Seq<ForwardView>, active: Seq<Seq<char>>) -> Seq<
    SubEntryView,
> {
    if all.len() == 0 {
        seq![SubEntryView { label: "No configured services"@, command: None }]
    } else {
        all.map_values(|f: ForwardView| forward_entry(f.route, active))
    }
}

/// The item of a kube context.
pub open spec fn context_entry(
    config: ConfigView,
    context: Seq<char>,
    active: Seq<Seq<char>>,
) -> EntryView {
    opening(
        labels::context_text(
            config.clusters[forwards::serving(config.clusters, context)->0].0,
            context,
        ),
        forwards_submenu(config.forwards(context)->Ok_0, active),
    )
}

/// The items of kube contexts, without the ignored ones.
pub open spec fn context_entries(
    config: ConfigView,
    contexts: Seq<Seq<char>>,
    active: Seq<Seq<char>>,
) -> Seq<EntryView> {
    contexts.filter(|c: Seq<char>| !config.ignore.contains(c)).map_values(
        |c: Seq<char>| context_entry(config, c, active),
    )
}

/// The item of a route that is forwarded.
pub open spec fn active_entry(route: Seq<char>, proxy_port: u16) -> EntryView {
    let url = labels::url_of(route, proxy_port);
    opening(
        route + " - "@ + url,
        seq![
            SubEntryView {
                label: "Copy URL to Clipboard"@,
                command: Some(CommandView::CopyUrl(url)),
            },
            SubEntryView { label: "Stop"@, command: Some(CommandView::Toggle(route)) },
        ],
    )
}

/// The items of the routes that are forwarded.
pub open spec fn active_entries(active: Seq<Seq<char>>, proxy_port: u16) -> Seq<EntryView> {
    if active.len() == 0 {
        seq![plain("No active forwards"@)]
    } else {
        active.map_values(|r: Seq<char>| active_entry(r, proxy_port))
    }
}

/// The items that act on all forwards and on the program.
pub open spec fn control_entries(any_active: bool) -> Seq<EntryView> {
    seq![
        EntryView::Separator,
        asking("Refresh Contexts"@, CommandView::RefreshContexts),
        if any_active {
            asking("Stop All"@, CommandView::StopAll)
        } else {
            plain("Stop All"@)
        },
        asking("Quit"@, CommandView::Quit),
        EntryView::Separator,
        plain("Active Forwards"@),
    ]
}

/// The whole menu, where `active` are the routes that are forwarded, in rising order.
pub open spec fn menu_of(
    config: ConfigView,
    contexts: Seq<Seq<char>>,
    active: Seq<Seq<char>>,
    transfer: Seq<char>,
) -> Seq<EntryView> {
    seq![tools_entry(config.port), plain(transfer)] + context_entries(config, contexts, active)
        + control_entries(active.len() > 0) + active_entries(active, config.port)
}

/// The forwards that the menu offers: those of the contexts in turn, without the ignored ones.
pub open spec fn offered(config: ConfigView, contexts: Seq<Seq<char>>) -> Seq<ForwardView>
    decreases contexts.len(),
{
    if contexts.len() == 0 {
        seq![]
    } else if config.ignore.contains(contexts.last()) {
        offered(config, contexts.drop_last())
    } else {
        offered(config, contexts.drop_last()) + config.forwards(contexts.last())->Ok_0
    }
}

/// The last forward of a route.
pub open spec fn last_of_route(all: Seq<ForwardView>, route: Seq<char>) -> Option<ForwardView>
    decreases all.len(),
{
    if all.len() == 0 {
        None
    } else if all.last().route == route {
        Some(all.last())
    } else {
        last_of_route(all.drop_last(), route)
    }
}

/// Whether a context is to be shown: it reaches a cluster, and is not ignored.
pub open spec fn shown(config: ConfigView) -> spec_fn(Seq<char>) -> bool {
    |c: Seq<char>| forwards::serving(config.clusters, c) is Some && !config.ignore.contains(c)
}

/// The name of the cluster that a context reaches.
pub open spec fn cluster_of(config: ConfigView) -> spec_fn(Seq<char>) -> Seq<char> {
    |c: Seq<char>| config.clusters[forwards::serving(config.clusters, c)->0].0
}

/// Whether `arranged` holds the contexts that are to be shown, as a stable sort arranges them
/// by the name of the cluster that they reach.
pub open spec fn is_arranged(
    config: ConfigView,
    contexts: Seq<Seq<char>>,
    arranged: Seq<Seq<char>>,
) -> bool {
    let kept = contexts.filter(shown(config));
    exists|order: Seq<usize>|
        order::arranges(kept.map_values(cluster_of(config)), order) && arranged == order.map_values(
            |p: usize| kept[p as int],
        )
}

/// The kube contexts that are to be shown, by the name of the cluster that they reach.
pub fn configured_contexts(config: &Config, contexts: Vec<String>) -> (r: Vec<String>)
    ensures
        is_arranged(config@, config::texts_view(contexts@), config::texts_view(r@)),
{
    let ghost texts = config::texts_view(contexts@);
    let ghost pred = shown(config@);
    let ghost name_of = cluster_of(config@);
    let mut kept: Vec<String> = Vec::new();
    let mut names: Vec<String> = Vec::new();
    let n: usize = contexts.len();
    proof {
        reveal(Seq::filter);
        assert(texts.take(0).filter(pred) =~= seq![]);
        assert(config::texts_view(kept@) =~= seq![]);
        assert(config::texts_view(names@) =~= seq![]);
        assert(Seq::<Seq<char>>::empty().map_values(name_of) =~= seq![]);
    }
    for i in 0..n
        invariant
            n == contexts@.len(),
            texts == config::texts_view(contexts@),
            pred == shown(config@),
            name_of == cluster_of(config@),
            config::texts_view(kept@) == texts.take(i as int).filter(pred),
            config::texts_view(names@) == config::texts_view(kept@).map_values(name_of),
    {
        let context = contexts[i].as_str();
        let ghost kept_before = kept@;
        let ghost names_before = names@;
        proof {
            reveal(Seq::filter);
            assert(texts.take(i + 1).drop_last() =~= texts.take(i as int));
            assert(texts.take(i + 1).last() == context@);
        }
        if let Some(name) = config.cluster_name_for_context(context) {
            if !config.ignored_context(context) {
                assert(pred(context@));
                kept.push(context.to_owned());
                names.push(name.to_owned());
                proof {
                    let k = config::texts_view(kept@);
                    assert(k =~= config::texts_view(kept_before).push(context@));
                    assert(config::texts_view(names@) =~= config::texts_view(names_before).push(
                        name@,
                    ));
                    assert(name_of(context@) == name@);
                    assert(config::texts_view(names@) =~= k.map_values(name_of));
                }
            }
        }
    }
    assert(texts.take(n as int) =~= texts);
    let order = order::stable_order(&names);
    proof {
        order::lemma_stable_texts(names@, order@);
        assert(config::texts_view(names@) =~= names@.map_values(|s: String| s@));
    }
    let m: usize = order.len();
    let mut r: Vec<String> = Vec::new();
    for i in 0..m
        invariant
            m == order@.len(),
            order::is_stable_order(names@, order@),
            names@.len() == kept@.len(),
            r@.len() == i,
            forall|k: int| 0 <= k < i ==> (#[trigger] r@[k])@ == kept@[order@[k] as int]@,
    {
        assert(order@[i as int] < names@.len());
        r.push(kept[order[i]].clone());
    }
    proof {
        let kept_texts = texts.filter(pred);
        let arranged = order@.map_values(|p: usize| kept_texts[p as int]);
        assert forall|k: int| 0 <= k < arranged.len() implies #[trigger] config::texts_view(r@)[k]
            == arranged[k] by {
            assert(r@[k]@ == kept@[order@[k] as int]@);
            assert(order@[k] < names@.len());
            assert(kept_texts[order@[k] as int] == kept@[order@[k] as int]@);
        }
        assert(config::texts_view(r@) =~= arranged);
        assert(order::arranges(kept_texts.map_values(name_of), order@));
    }
    r
}

/// An item that asks for nothing.
fn plain_item(label: &str) -> (r: MenuEntry)
    ensures
        r@ == plain(label@),
{
    MenuEntry::Item { label: label.to_owned(), command: None, submenu: None }
}

/// An item that asks for something.
fn asking_item(label: &str, command: Command) -> (r: MenuEntry)
    ensures
        r@ == asking(label@, command@),
{
    MenuEntry::Item { label: label.to_owned(), command: Some(command), submenu: None }
}

/// The item that shows where the proxy is.
fn tools_item(proxy_port: u16) -> (r: MenuEntry)
    ensures
        r@ == tools_entry(proxy_port),
{
    let mut proxy = "Proxy: 127.0.0.1:".to_owned();
    text::push_decimal(&mut proxy, proxy_port as u64);
    let mut submenu: Vec<SubEntry> = Vec::new();
    submenu.push(SubEntry { label: "kubectl".to_owned(), command: None });
    submenu.push(SubEntry { label: proxy, command: None });
    let r = MenuEntry::Item { label: "Tools".to_owned(), command: None, submenu: Some(submenu) };
    assert(submenu_view(submenu@) =~= tools_entry(proxy_port)->submenu->0);
    r
}

/// The item of a route that is forwarded.
fn active_item(route: &str, proxy_port: u16) -> (r: MenuEntry)
    ensures
        r@ == active_entry(route@, proxy_port),
{
    let url = labels::active_url(route, proxy_port);
    let label = route.to_owned().concat(" - ").concat(url.as_str());
    let mut submenu: Vec<SubEntry> = Vec::new();
    submenu.push(
        SubEntry { label: "Copy URL to Clipboard".to_owned(), command: Some(Command::CopyUrl(url)) },
    );
    submenu.push(
        SubEntry { label: "Stop".to_owned(), command: Some(Command::Toggle(route.to_owned())) },
    );
    let r = MenuEntry::Item { label, command: None, submenu: Some(submenu) };
    assert(submenu_view(submenu@) =~= active_entry(route@, proxy_port)->submenu->0);
    r
}

/// Whether a text is one of those given.
fn is_among(texts: &Vec<String>, wanted: &str) -> (b: bool)
    ensures
        b == config::texts_view(texts@).contains(wanted@),
{
    let ghost view = config::texts_view(texts@);
    let n: usize = texts.len();
    for i in 0..n
        invariant
            n == texts@.len(),
            view == config::texts_view(texts@),
            forall|j: int| 0 <= j < i ==> #[trigger] view[j] != wanted@,
    {
        assert(view[i as int] == texts@[i as int]@);
        if text::same(texts[i].as_str(), wanted) {
            return true;
        }
    }
    false
}

/// The item of a kube context.
fn context_item(config: &Config, context: &str, active: &Vec<String>) -> (r: MenuEntry)
    requires
        config@.fault() is None,
        forwards::serving(config@.clusters, context@) is Some,
    ensures
        r@ == context_entry(config@, context@, config::texts_view(active@)),
{
    proof {
        laws::configuration::valid_configurations_have_forwards(config@, context@);
    }
    let all = match config.forwards_for_context(context) {
        Ok(all) => all,
        Err(_) => Vec::new(),
    };
    let ghost view = config::forwards_view(all@);
    assert(view == config@.forwards(context@)->Ok_0);
    let mut submenu: Vec<SubEntry> = Vec::new();
    let n: usize = all.len();
    if n == 0 {
        submenu.push(SubEntry { label: "No configured services".to_owned(), command: None });
        assert(submenu_view(submenu@) =~= forwards_submenu(view, config::texts_view(active@)));
    }
    for i in 0..n
        invariant
            n == all@.len(),
            view == config::forwards_view(all@),
            n == 0 ==> submenu_view(submenu@) == forwards_submenu(
                view,
                config::texts_view(active@),
            ),
            n > 0 ==> submenu@.len() == i,
            n > 0 ==> forall|k: int|
                0 <= k < i ==> (#[trigger] submenu@[k])@ == forward_entry(
                    view[k].route,
                    config::texts_view(active@),
                ),
    {
        let route = all[i].route.as_str();
        assert(view[i as int].route == route@);
        submenu.push(
            SubEntry {
                label: labels::service_label(route, is_among(active, route)),
                command: Some(Command::Toggle(route.to_owned())),
            },
        );
    }
    assert(submenu_view(submenu@) =~= forwards_submenu(view, config::texts_view(active@)));
    MenuEntry::Item {
        label: labels::context_label(config, context),
        command: None,
        submenu: Some(submenu),
    }
}

/// What the menu shows: the contexts, and which routes are forwarded.
#[derive(Debug)]
pub struct TrayState {
    config: Config,
    contexts: Vec<String>,
    routes: Vec<ForwardSpec>,
    active: Vec<String>,
}

/// The mathematical counterpart of [`TrayState`]: the routes that are forwarded stand in
/// rising order.
pub struct TrayView {
    pub config: ConfigView,
    pub contexts: Seq<Seq<char>>,
    pub active: Seq<Seq<char>>,
}

impl View for TrayState {
    type V = TrayView;

    closed spec fn view(&self) -> TrayView {
        TrayView {
            config: self.config@,
            contexts: config::texts_view(self.contexts@),
            active: config::texts_view(self.active@),
        }
    }
}

impl TrayView {
    /// Whether the configuration is valid, the contexts reach clusters, and no route stands
    /// twice among those that are forwarded.
    pub open spec fn wf(self) -> bool {
        &&& self.config.fault() is None
        &&& forall|i: int|
            0 <= i < self.contexts.len() ==> forwards::serving(
                self.config.clusters,
                #[trigger] self.contexts[i],
            ) is Some
        &&& kube::rising(self.active)
    }
}

/// What is to be done for a command.
#[derive(Debug)]
pub enum TrayAction {
    /// Nothing.
    Nothing,
    /// Start or stop a forward.
    Toggle(ForwardSpec),
    /// Copy an address to the clipboard.
    CopyUrl(String),
    /// Show what has gone through the proxy.
    ShowTransferStats,
    /// Ask `kubectl` for the kube contexts.
    ReadContexts,
    /// Stop every forward.
    StopAll,
    /// End the program.
    Quit,
}

/// The mathematical counterpart of [`TrayAction`].
pub enum TrayActionView {
    Nothing,
    Toggle(ForwardView),
    CopyUrl(Seq<char>),
    ShowTransferStats,
    ReadContexts,
    StopAll,
    Quit,
}

impl View for TrayAction {
    type V = TrayActionView;

    open spec fn view(&self) -> TrayActionView {
        match self {
            TrayAction::Nothing => TrayActionView::Nothing,
            TrayAction::Toggle(forward) => TrayActionView::Toggle(forward@),
            TrayAction::CopyUrl(url) => TrayActionView::CopyUrl(url@),
            TrayAction::ShowTransferStats => TrayActionView::ShowTransferStats,
            TrayAction::ReadContexts => TrayActionView::ReadContexts,
            TrayAction::StopAll => TrayActionView::StopAll,
            TrayAction::Quit => TrayActionView::Quit,
        }
    }
}

/// What is to be done for a command: a route that the menu no longer offers is left alone.
pub open spec fn tray_action(view: TrayView, command: CommandView) -> TrayActionView {
    match command {
        CommandView::Toggle(route) => match last_of_route(
            offered(view.config, view.contexts),
            route,
        ) {
            Some(forward) => TrayActionView::Toggle(forward),
            None => TrayActionView::Nothing,
        },
        CommandView::CopyUrl(url) => TrayActionView::CopyUrl(url),
        CommandView::UpdateTransferStats => TrayActionView::ShowTransferStats,
        CommandView::RefreshContexts => TrayActionView::ReadContexts,
        CommandView::StopAll => TrayActionView::StopAll,
        CommandView::Quit => TrayActionView::Quit,
    }
}

/// The forwards that the menu offers.
fn offered_forwards(config: &Config, contexts: &Vec<String>) -> (r: Vec<ForwardSpec>)
    requires
        config@.fault() is None,
    ensures
        config::forwards_view(r@) == offered(config@, config::texts_view(contexts@)),
{
    let ghost texts = config::texts_view(contexts@);
    let mut r: Vec<ForwardSpec> = Vec::new();
    assert(config::forwards_view(r@) =~= seq![]);
    assert(texts.take(0) =~= seq![]);
    let n: usize = contexts.len();
    for i in 0..n
        invariant
            n == contexts@.len(),
            texts == config::texts_view(contexts@),
            config@.fault() is None,
            config::forwards_view(r@) == offered(config@, texts.take(i as int)),
    {
        let context = contexts[i].as_str();
        assert(texts.take(i + 1).drop_last() =~= texts.take(i as int));
        assert(texts.take(i + 1).last() == context@);
        if !config.ignored_context(context) {
            proof {
                laws::configuration::valid_configurations_have_forwards(config@, context@);
            }
            if let Ok(mut more) = config.forwards_for_context(context) {
                let ghost before = r@;
                let ghost added = more@;
                r.append(&mut more);
                assert(config::forwards_view(r@) =~= config::forwards_view(before)
                    + config::forwards_view(added));
            }
        }
    }
    assert(texts.take(n as int) =~= texts);
    r
}

/// Whether `after` holds what `before` holds and the added text, in rising order and each once.
pub open spec fn is_inserted(before: Seq<Seq<char>>, added: Seq<char>, after: Seq<Seq<char>>) -> bool {
    kube::rising(after) && forall|t: Seq<char>| #[trigger]
        after.contains(t) <==> before.contains(t) || t == added
}

/// Whether `after` holds what `before` holds but for the removed text, in rising order and each
/// once.
pub open spec fn is_removed(before: Seq<Seq<char>>, removed: Seq<char>, after: Seq<Seq<char>>) -> bool {
    kube::rising(after) && forall|t: Seq<char>| #[trigger]
        after.contains(t) <==> before.contains(t) && t != removed
}

/// The position in a sorted list up to which all comes before a text, and from which on none
/// does.
fn insertion_point(texts: &Vec<String>, wanted: &str) -> (at: usize)
    requires
        kube::rising(config::texts_view(texts@)),
    ensures
        at <= texts@.len(),
        forall|i: int|
            0 <= i < at ==> order::text_lt(#[trigger] config::texts_view(texts@)[i], wanted@),
        forall|i: int|
            at <= i < texts@.len() ==> order::text_le(
                wanted@,
                #[trigger] config::texts_view(texts@)[i],
            ),
{
    let ghost view = config::texts_view(texts@);
    let n: usize = texts.len();
    let mut at: usize = 0;
    proof {
        order::text_order();
    }
    let ghost le = |a: Seq<char>, b: Seq<char>| order::text_le(a, b);
    while at < n && !order::text_before(wanted, texts[at].as_str())
        invariant
            n == texts@.len(),
            at <= n,
            view == config::texts_view(texts@),
            forall|i: int| 0 <= i < at ==> !order::text_le(wanted@, #[trigger] view[i]),
        decreases n - at,
    {
        assert(view[at as int] == texts@[at as int]@);
        at = at + 1;
    }
    proof {
        assert forall|i: int| 0 <= i < at implies order::text_lt(#[trigger] view[i], wanted@) by {
            assert(!le(wanted@, view[i]));
            assert(le(view[i], wanted@));
        }
        assert forall|i: int| at <= i < n implies order::text_le(wanted@, #[trigger] view[i]) by {
            assert(view[at as int] == texts@[at as int]@);
            if i > at {
                assert(order::text_lt(view[at as int], view[i]));
                assert(le(wanted@, view[at as int]) && le(view[at as int], view[i]));
                assert(le(wanted@, view[i]));
            }
        }
    }
    at
}

/// Adds a text to a sorted list, unless it stands there.
fn insert_sorted(texts: &mut Vec<String>, added: &str)
    requires
        kube::rising(config::texts_view(old(texts)@)),
    ensures
        is_inserted(
            config::texts_view(old(texts)@),
            added@,
            config::texts_view(final(texts)@),
        ),
{
    let ghost before = config::texts_view(texts@);
    let at: usize = insertion_point(texts, added);
    let n: usize = texts.len();
    if at < n && text::same(texts[at].as_str(), added) {
        assert(before[at as int] == added@);
        return;
    }
    assert(at < n ==> before[at as int] == texts@[at as int]@);
    texts.insert(at, added.to_owned());
    proof {
        let after = config::texts_view(texts@);
        assert(after =~= before.insert(at as int, added@));
        assert forall|i: int, j: int| 0 <= i < j < after.len() implies order::text_lt(
            #[trigger] after[i],
            #[trigger] after[j],
        ) by {
            let p = if i < at {
                i
            } else {
                i - 1
            };
            let q = if j < at {
                j
            } else {
                j - 1
            };
            if i == at {
                assert(after[j] == before[q]);
                assert(order::text_le(added@, before[q]));
                if before[q] == added@ {
                    // Only the text at the position itself could be the same.
                    if q > at {
                        assert(order::text_lt(before[at as int], before[q]));
                        order::text_order();
                        let le = |a: Seq<char>, b: Seq<char>| order::text_le(a, b);
                        assert(le(added@, before[at as int]));
                        assert(le(before[at as int], added@));
                    }
                }
            } else if j == at {
                assert(after[i] == before[p]);
            } else {
                assert(after[i] == before[p] && after[j] == before[q]);
            }
        }
        assert forall|t: Seq<char>| #[trigger] after.contains(t) <==> before.contains(t) || t
            == added@ by {
            if after.contains(t) {
                let i = choose|i: int| 0 <= i < after.len() && after[i] == t;
                if i < at {
                    assert(before[i] == t);
                } else if i > at {
                    assert(before[i - 1] == t);
                }
            }
            if before.contains(t) {
                let i = choose|i: int| 0 <= i < before.len() && before[i] == t;
                if i < at {
                    assert(after[i] == t);
                } else {
                    assert(after[i + 1] == t);
                }
            }
            if t == added@ {
                assert(after[at as int] == t);
            }
        }
    }
}

/// Takes a text out of a sorted list.
fn remove_sorted(texts: &mut Vec<String>, removed: &str)
    requires
        kube::rising(config::texts_view(old(texts)@)),
    ensures
        is_removed(
            config::texts_view(old(texts)@),
            removed@,
            config::texts_view(final(texts)@),
        ),
{
    let ghost before = config::texts_view(texts@);
    let n: usize = texts.len();
    let mut at: usize = 0;
    while at < n && !text::same(texts[at].as_str(), removed)
        invariant
            n == texts@.len(),
            at <= n,
            before == config::texts_view(texts@),
            forall|i: int| 0 <= i < at ==> #[trigger] before[i] != removed@,
        decreases n - at,
    {
        assert(before[at as int] == texts@[at as int]@);
        at = at + 1;
    }
    if at == n {
        return;
    }
    assert(before[at as int] == removed@);
    texts.remove(at);
    proof {
        let after = config::texts_view(texts@);
        assert(after =~= before.remove(at as int));
        assert forall|i: int, j: int| 0 <= i < j < after.len() implies order::text_lt(
            #[trigger] after[i],
            #[trigger] after[j],
        ) by {
            let p = if i < at {
                i
            } else {
                i + 1
            };
            let q = if j < at {
                j
            } else {
                j + 1
            };
            assert(after[i] == before[p] && after[j] == before[q]);
        }
        assert forall|t: Seq<char>| #[trigger] after.contains(t) <==> before.contains(t) && t
            != removed@ by {
            if after.contains(t) {
                let i = choose|i: int| 0 <= i < after.len() && after[i] == t;
                let p = if i < at {
                    i
                } else {
                    i + 1
                };
                assert(before[p] == t);
                if p < at {
                    assert(order::text_lt(before[p], before[at as int]));
                } else {
                    assert(order::text_lt(before[at as int], before[p]));
                }
            }
            if before.contains(t) && t != removed@ {
                let i = choose|i: int| 0 <= i < before.len() && before[i] == t;
                if i < at {
                    assert(after[i] == t);
                } else {
                    assert(after[i - 1] == t);
                }
            }
        }
    }
}

impl TrayState {
    /// Whether the configuration is valid, the contexts reach clusters, no route stands twice
    /// among those that are forwarded, and the forwards on offer are those of the contexts.
    pub closed spec fn wf(&self) -> bool {
        self@.wf() && config::forwards_view(self.routes@) == offered(self@.config, self@.contexts)
    }

    /// A well-formed state has a well-formed counterpart.
    pub proof fn wf_view(&self)
        requires
            self.wf(),
        ensures
            self@.wf(),
    {
    }

    /// The state with which the menu begins, and the forwards for which routes are set up.
    pub fn new(config: Config, contexts: Vec<String>) -> (r: Result<
        (TrayState, Vec<ForwardSpec>),
        ConfigError,
    >)
        requires
            config@.fault() is None,
        ensures
            exists|arranged: Seq<Seq<char>>|
                #![trigger config@.all_forwards(arranged)]
                is_arranged(config@, config::texts_view(contexts@), arranged) && (match (
                    r,
                    config@.all_forwards(arranged),
                ) {
                    (Ok(state), Ok(all)) => {
                        &&& state.0.wf()
                        &&& state.0@ == (TrayView {
                            config: config@,
                            contexts: arranged,
                            active: seq![],
                        })
                        &&& config::forwards_view(state.1@) == all
                    },
                    (Err(e), Err(f)) => e@ == f,
                    _ => false,
                }),
    {
        let ghost given = config::texts_view(contexts@);
        let contexts = configured_contexts(&config, contexts);
        let ghost arranged = config::texts_view(contexts@);
        proof {
            laws::menu::arranged_contexts_are_shown(config@, given, arranged);
        }
        let all = match config.forwards_for_contexts(contexts.as_slice()) {
            Err(e) => return Err(e),
            Ok(all) => all,
        };
        let routes = offered_forwards(&config, &contexts);
        let state = TrayState { config, contexts, routes, active: Vec::new() };
        assert(state@.active =~= seq![]);
        assert forall|i: int| 0 <= i < state@.contexts.len() implies forwards::serving(
            state@.config.clusters,
            #[trigger] state@.contexts[i],
        ) is Some by {
            assert(shown(config@)(arranged[i]));
        }
        Ok((state, all))
    }

    /// The menu.
    pub fn menu(&self, transfer: &str) -> (r: Vec<MenuEntry>)
        requires
            self.wf(),
        ensures
            menu_view(r@) == menu_of(self@.config, self@.contexts, self@.active, transfer@),
    {
        let ghost config = self@.config;
        let ghost contexts = self@.contexts;
        let ghost active = self@.active;
        let ghost visible = |c: Seq<char>| !config.ignore.contains(c);
        let ghost entry = |c: Seq<char>| context_entry(config, c, active);
        let port: u16 = self.config.proxy.port;
        let mut r: Vec<MenuEntry> = Vec::new();
        r.push(tools_item(port));
        r.push(plain_item(transfer));
        let ghost head = seq![tools_entry(config.port), plain(transfer@)];
        proof {
            reveal(Seq::filter);
            assert(contexts.take(0).filter(visible) =~= seq![]);
            assert(menu_view(r@) =~= head + contexts.take(0).filter(visible).map_values(entry));
        }
        let n: usize = self.contexts.len();
        for i in 0..n
            invariant
                n == self.contexts@.len(),
                self.wf(),
                config == self@.config,
                contexts == self@.contexts,
                active == self@.active,
                visible == (|c: Seq<char>| !config.ignore.contains(c)),
                entry == (|c: Seq<char>| context_entry(config, c, active)),
                menu_view(r@) == head + contexts.take(i as int).filter(visible).map_values(entry),
        {
            let context = self.contexts[i].as_str();
            let ghost before = r@;
            let ghost earlier = contexts.take(i as int).filter(visible);
            proof {
                reveal(Seq::filter);
                assert(contexts.take(i + 1).drop_last() =~= contexts.take(i as int));
                assert(contexts.take(i + 1).last() == context@);
                assert(contexts[i as int] == context@);
            }
            if !self.config.ignored_context(context) {
                assert(visible(context@));
                r.push(context_item(&self.config, context, &self.active));
                assert(menu_view(r@) =~= menu_view(before).push(entry(context@)));
                assert(earlier.push(context@).map_values(entry) =~= earlier.map_values(entry).push(
                    entry(context@),
                ));
                assert(menu_view(r@) =~= head + contexts.take(i + 1).filter(visible).map_values(
                    entry,
                ));
            }
        }
        assert(contexts.take(n as int) =~= contexts);
        let ghost so_far = menu_view(r@);
        assert(so_far == head + context_entries(config, contexts, active));
        let any = self.active.len() > 0;
        r.push(MenuEntry::Separator);
        r.push(asking_item("Refresh Contexts", Command::RefreshContexts));
        if any {
            r.push(asking_item("Stop All", Command::StopAll));
        } else {
            r.push(plain_item("Stop All"));
        }
        r.push(asking_item("Quit", Command::Quit));
        r.push(MenuEntry::Separator);
        r.push(plain_item("Active Forwards"));
        let ghost controls = so_far + control_entries(active.len() > 0);
        assert(menu_view(r@) =~= controls);
        if !any {
            r.push(plain_item("No active forwards"));
            assert(menu_view(r@) =~= controls + active_entries(active, config.port));
            return r;
        }
        let m: usize = self.active.len();
        let ghost item = |t: Seq<char>| active_entry(t, config.port);
        assert(menu_view(r@) =~= controls + active.take(0).map_values(item));
        for i in 0..m
            invariant
                m == self.active@.len(),
                port == config.port,
                active == config::texts_view(self.active@),
                item == (|t: Seq<char>| active_entry(t, config.port)),
                menu_view(r@) == controls + active.take(i as int).map_values(item),
        {
            let ghost before = r@;
            assert(active[i as int] == self.active@[i as int]@);
            r.push(active_item(self.active[i].as_str(), port));
            assert(menu_view(r@) =~= menu_view(before).push(item(active[i as int])));
            assert(menu_view(r@) =~= controls + active.take(i + 1).map_values(item));
        }
        assert(active.take(m as int) =~= active);
        r
    }

    /// The forward of a route, if the menu offers it.
    fn offered_forward(&self, route: &str) -> (r: Option<ForwardSpec>)
        requires
            self.wf(),
        ensures
            match (r, last_of_route(offered(self@.config, self@.contexts), route@)) {
                (Some(f), Some(g)) => f@ == g,
                (None, None) => true,
                _ => false,
            },
    {
        let ghost all = config::forwards_view(self.routes@);
        let mut i: usize = self.routes.len();
        assert(all.take(i as int) =~= all);
        while i > 0
            invariant
                i <= self.routes@.len(),
                all == config::forwards_view(self.routes@),
                all == offered(self@.config, self@.contexts),
                last_of_route(all, route@) == last_of_route(all.take(i as int), route@),
            decreases i,
        {
            assert(all.take(i as int).last() == self.routes@[i - 1]@);
            if text::same(self.routes[i - 1].route.as_str(), route) {
                return Some(self.routes[i - 1].clone());
            }
            assert(all.take(i as int).drop_last() =~= all.take(i - 1));
            i = i - 1;
        }
        None
    }

    /// What is to be done for a command.
    pub fn handle(&self, command: Command) -> (r: TrayAction)
        requires
            self.wf(),
        ensures
            r@ == tray_action(self@, command@),
    {
        match command {
            Command::Toggle(route) => match self.offered_forward(route.as_str()) {
                Some(forward) => TrayAction::Toggle(forward),
                None => TrayAction::Nothing,
            },
            Command::CopyUrl(url) => TrayAction::CopyUrl(url),
            Command::UpdateTransferStats => TrayAction::ShowTransferStats,
            Command::RefreshContexts => TrayAction::ReadContexts,
            Command::StopAll => TrayAction::StopAll,
            Command::Quit => TrayAction::Quit,
        }
    }

    /// Takes note that the forward of a route was started or stopped.
    pub fn toggled(&mut self, route: &str, started: bool)
        requires
            old(self).wf(),
        ensures
            final(self).wf(),
            final(self)@.config == old(self)@.config,
            final(self)@.contexts == old(self)@.contexts,
            if started {
                is_inserted(old(self)@.active, route@, final(self)@.active)
            } else {
                is_removed(old(self)@.active, route@, final(self)@.active)
            },
    {
        if started {
            insert_sorted(&mut self.active, route);
        } else {
            remove_sorted(&mut self.active, route);
        }
    }

    /// Takes note of the kube contexts that `kubectl` lists.
    pub fn contexts_read(&mut self, contexts: Vec<String>)
        requires
            old(self).wf(),
        ensures
            final(self).wf(),
            final(self)@.config == old(self)@.config,
            final(self)@.active == old(self)@.active,
            is_arranged(
                old(self)@.config,
                config::texts_view(contexts@),
                final(self)@.contexts,
            ),
    {
        let ghost given = config::texts_view(contexts@);
        let contexts = configured_contexts(&self.config, contexts);
        let routes = offered_forwards(&self.config, &contexts);
        self.contexts = contexts;
        self.routes = routes;
        proof {
            laws::menu::arranged_contexts_are_shown(self@.config, given, self@.contexts);
            assert forall|i: int| 0 <= i < self@.contexts.len() implies forwards::serving(
                self@.config.clusters,
                #[trigger] self@.contexts[i],
            ) is Some by {
                assert(shown(self@.config)(self@.contexts[i]));
            }
        }
    }

    /// Takes note that every forward was stopped.
    pub fn all_stopped(&mut self)
        requires
            old(self).wf(),
        ensures
            final(self).wf(),
            final(self)@ == (TrayView { active: seq![], ..old(self)@ }),
    {
        self.active = Vec::new();
        assert(self@.active =~= seq![]);
    }
}

} // verus!
