//! Laws of the toolbar menu.

use vstd::prelude::*;

use crate::config;
use crate::config::{ConfigView, ForwardView};
use crate::forwards;
use crate::kube;
use crate::labels;
use crate::laws::configuration;
use crate::laws::expansion;
use crate::laws::routes;
use crate::order;
use crate::route;
use crate::service;
use crate::text;
use crate::tray;
use crate::tray::{CommandView, EntryView, SubEntryView, TrayActionView, TrayView};

verus! {

/// Every context in the menu is one of those listed, reaches a cluster, and is not ignored.
pub proof fn arranged_contexts_are_shown(
    config: ConfigView,
    contexts: Seq<Seq<char>>,
    arranged: Seq<Seq<char>>,
)
    requires
        tray::is_arranged(config, contexts, arranged),
    ensures
        forall|i: int|
            0 <= i < arranged.len() ==> contexts.contains(#[trigger] arranged[i]) && tray::shown(
                config,
            )(arranged[i]),
{
    let kept = contexts.filter(tray::shown(config));
    let order = choose|order: Seq<usize>|
        order::arranges(kept.map_values(tray::cluster_of(config)), order) && arranged
            == order.map_values(|p: usize| kept[p as int]);
    assert forall|i: int| 0 <= i < arranged.len() implies contexts.contains(#[trigger] arranged[i])
        && tray::shown(config)(arranged[i]) by {
        assert(order[i] < kept.len());
        configuration::lemma_filter_passes(contexts, tray::shown(config), order[i] as int);
    }
}

/// Keys have one stable order.
pub proof fn arrangements_are_unique(keys: Seq<Seq<char>>, first: Seq<usize>, second: Seq<usize>)
    requires
        order::arranges(keys, first),
        order::arranges(keys, second),
    ensures
        first == second,
{
    assert forall|i: int| 0 <= i < keys.len() implies first[i] == second[i] by {
        lemma_arrangements_agree(keys, first, second, i);
    }
    assert(first =~= second);
}

/// The contexts of the menu, and their order, are determined by those listed.
pub proof fn menu_contexts_are_determined(
    config: ConfigView,
    contexts: Seq<Seq<char>>,
    first: Seq<Seq<char>>,
    second: Seq<Seq<char>>,
)
    requires
        tray::is_arranged(config, contexts, first),
        tray::is_arranged(config, contexts, second),
    ensures
        first == second,
{
    let kept = contexts.filter(tray::shown(config));
    let keys = kept.map_values(tray::cluster_of(config));
    let a = choose|order: Seq<usize>|
        order::arranges(keys, order) && first == order.map_values(|p: usize| kept[p as int]);
    let b = choose|order: Seq<usize>|
        order::arranges(keys, order) && second == order.map_values(|p: usize| kept[p as int]);
    arrangements_are_unique(keys, a, b);
}

/// Where two stable orders agree up to a position, they agree there.
proof fn lemma_arrangements_agree(
    keys: Seq<Seq<char>>,
    first: Seq<usize>,
    second: Seq<usize>,
    i: int,
)
    requires
        order::arranges(keys, first),
        order::arranges(keys, second),
        0 <= i < keys.len(),
    ensures
        first[i] == second[i],
    decreases i,
{
    order::text_order();
    let le = |a: Seq<char>, b: Seq<char>| order::text_le(a, b);
    assert forall|j: int| 0 <= j < i implies first[j] == second[j] by {
        lemma_arrangements_agree(keys, first, second, j);
    }
    let a = first[i];
    let b = second[i];
    if a != b {
        assert(b < keys.len() && a < keys.len());
        assert(first.contains(b));
        assert(second.contains(a));
        let k = choose|k: int| 0 <= k < first.len() && first[k] == b;
        let h = choose|h: int| 0 <= h < second.len() && second[h] == a;
        if k < i {
            assert(second[k] == b);
            assert(order::text_stands_before(keys, second[k], second[i]));
            assert(le(keys[b as int], keys[b as int]));
        }
        if h < i {
            assert(first[h] == a);
            assert(order::text_stands_before(keys, first[h], first[i]));
            assert(le(keys[a as int], keys[a as int]));
        }
        if k > i && h > i {
            assert(order::text_stands_before(keys, first[i], first[k]));
            assert(order::text_stands_before(keys, second[i], second[h]));
        }
    }
}

/// The contexts of the menu stand by rising name of the cluster that they reach.
pub proof fn menu_contexts_rise_by_cluster(
    config: ConfigView,
    contexts: Seq<Seq<char>>,
    arranged: Seq<Seq<char>>,
    i: int,
    j: int,
)
    requires
        tray::is_arranged(config, contexts, arranged),
        0 <= i < j < arranged.len(),
    ensures
        order::text_le(tray::cluster_of(config)(arranged[i]), tray::cluster_of(config)(arranged[j])),
{
    let kept = contexts.filter(tray::shown(config));
    let keys = kept.map_values(tray::cluster_of(config));
    let order = choose|order: Seq<usize>|
        order::arranges(keys, order) && arranged == order.map_values(|p: usize| kept[p as int]);
    assert(order::text_stands_before(keys, order[i], order[j]));
    assert(order[i] < keys.len() && order[j] < keys.len());
    assert(keys[order[i] as int] == tray::cluster_of(config)(kept[order[i] as int]));
    assert(keys[order[j] as int] == tray::cluster_of(config)(kept[order[j] as int]));
}

/// What has gone through the proxy is shown by the item at its fixed position.
pub proof fn transfers_are_shown_in_their_place(
    config: ConfigView,
    contexts: Seq<Seq<char>>,
    active: Seq<Seq<char>>,
    transfer: Seq<char>,
)
    ensures
        tray::TRANSFER_STATS_ITEM_INDEX < tray::menu_of(config, contexts, active, transfer).len(),
        tray::menu_of(config, contexts, active, transfer)[tray::TRANSFER_STATS_ITEM_INDEX as int]
            == tray::plain(transfer),
{
}

/// A menu shows a route by the name of its service.
pub proof fn routes_are_shown_by_service(cluster: Seq<char>, name: Seq<char>)
    requires
        service::is_label(name),
    ensures
        labels::service_of(route::route_of(cluster, name)) == name,
{
    reveal_strlit(".");
    let r = route::route_of(cluster, name);
    let at = cluster.len() as int;
    assert(r[at] == '.');
    assert forall|i: int| at < i < r.len() implies #[trigger] r[i] != '.' by {
        assert(r[i] == name[i - at - 1]);
        assert(service::label_char(name[i - at - 1]));
    }
    routes::lemma_rfind_at(r, '.', at);
    assert(r.skip(at + 1) =~= name);
}

/// The last forward of a route is one of them, and is found if there is one.
proof fn lemma_last_of_route(all: Seq<ForwardView>, route: Seq<char>)
    ensures
        match tray::last_of_route(all, route) {
            Some(f) => f.route == route && all.contains(f),
            None => forall|i: int| 0 <= i < all.len() ==> (#[trigger] all[i]).route != route,
        },
    decreases all.len(),
{
    if all.len() > 0 {
        let init = all.drop_last();
        lemma_last_of_route(init, route);
        if all.last().route == route {
            assert(all[all.len() - 1] == all.last());
        } else {
            match tray::last_of_route(init, route) {
                Some(f) => {
                    let k = choose|k: int| 0 <= k < init.len() && init[k] == f;
                    assert(all[k] == f);
                },
                None => {
                    assert forall|i: int| 0 <= i < all.len() implies (#[trigger] all[i]).route
                        != route by {
                        if i < init.len() {
                            assert(init[i] == all[i]);
                        }
                    }
                },
            }
        }
    }
}

/// The forwards of a context that is not ignored are on offer.
proof fn lemma_offered(config: ConfigView, contexts: Seq<Seq<char>>, at: int, i: int)
    requires
        0 <= at < contexts.len(),
        !config.ignore.contains(contexts[at]),
        0 <= i < config.forwards(contexts[at])->Ok_0.len(),
    ensures
        tray::offered(config, contexts).contains(config.forwards(contexts[at])->Ok_0[i]),
    decreases contexts.len(),
{
    let init = contexts.drop_last();
    let all = tray::offered(config, contexts);
    let first = tray::offered(config, init);
    let f = config.forwards(contexts[at])->Ok_0[i];
    if at < init.len() {
        assert(init[at] == contexts[at]);
        lemma_offered(config, init, at, i);
        let k = choose|k: int| 0 <= k < first.len() && first[k] == f;
        assert(all[k] == f);
    } else {
        assert(all[first.len() + i] == f);
    }
}

/// Every item of a service in the menu asks for something that is done: the forward of its
/// route is started or stopped.
pub proof fn offered_services_can_be_toggled(view: TrayView, at: int, i: int)
    requires
        0 <= at < view.contexts.len(),
        !view.config.ignore.contains(view.contexts[at]),
        0 <= i < view.config.forwards(view.contexts[at])->Ok_0.len(),
    ensures
        ({
            let f = view.config.forwards(view.contexts[at])->Ok_0[i];
            tray::tray_action(view, CommandView::Toggle(f.route)) matches TrayActionView::Toggle(
                g,
            ) && g.route == f.route
        }),
{
    let all = tray::offered(view.config, view.contexts);
    let f = view.config.forwards(view.contexts[at])->Ok_0[i];
    lemma_offered(view.config, view.contexts, at, i);
    lemma_last_of_route(all, f.route);
    let k = choose|k: int| 0 <= k < all.len() && all[k] == f;
    assert(all[k].route == f.route);
}

/// Where the contexts are listed once, what the menu offers is what routes are set up for, and
/// the item of a service toggles the very forward that it stands for.
pub proof fn menus_offer_the_forwards(view: TrayView)
    requires
        view.config.fault() is None,
        config::names_rise(view.config.clusters),
        configuration::listed_once(view.contexts),
    ensures
        view.config.all_forwards(view.contexts) == Ok::<Seq<ForwardView>, crate::error::ErrorView>(
            tray::offered(view.config, view.contexts),
        ),
        forall|i: int|
            0 <= i < tray::offered(view.config, view.contexts).len() ==> tray::tray_action(
                view,
                CommandView::Toggle(
                    (#[trigger] tray::offered(view.config, view.contexts)[i]).route,
                ),
            ) == TrayActionView::Toggle(tray::offered(view.config, view.contexts)[i]),
{
    let all = tray::offered(view.config, view.contexts);
    lemma_offered_is_all(view.config, view.contexts);
    configuration::forwards_have_distinct_routes(view.config, view.contexts);
    assert forall|i: int| 0 <= i < all.len() implies tray::tray_action(
        view,
        CommandView::Toggle((#[trigger] all[i]).route),
    ) == TrayActionView::Toggle(all[i]) by {
        lemma_last_of_route(all, all[i].route);
        let g = tray::last_of_route(all, all[i].route)->0;
        let k = choose|k: int| 0 <= k < all.len() && all[k] == g;
        assert(all[k].route == all[i].route);
        assert(k == i);
    }
}

proof fn lemma_offered_is_all(config: ConfigView, contexts: Seq<Seq<char>>)
    requires
        config.fault() is None,
        config::names_rise(config.clusters),
        configuration::listed_once(contexts),
    ensures
        config.all_forwards(contexts) == Ok::<Seq<ForwardView>, crate::error::ErrorView>(
            tray::offered(config, contexts),
        ),
    decreases contexts.len(),
{
    if contexts.len() > 0 {
        let init = contexts.drop_last();
        assert forall|i: int, j: int| 0 <= i < j < init.len() implies #[trigger] init[i]
            != #[trigger] init[j] by {
            assert(contexts[i] == init[i] && contexts[j] == init[j]);
        }
        lemma_offered_is_all(config, init);
        configuration::valid_configurations_never_collide(config, contexts);
        let first = tray::offered(config, init);
        assert(first + Seq::<ForwardView>::empty() =~= first);
    }
}

/// The contexts that are not ignored, in their order.
pub open spec fn visible(config: ConfigView, contexts: Seq<Seq<char>>) -> Seq<Seq<char>> {
    contexts.filter(|c: Seq<char>| !config.ignore.contains(c))
}

/// A menu begins with the tools and what has gone through the proxy. Then come the contexts
/// that are not ignored, the items that act on everything, and the forwards that run. `Stop All`
/// can be chosen if and only if a forward runs.
pub proof fn menus_are_laid_out(
    config: ConfigView,
    contexts: Seq<Seq<char>>,
    active: Seq<Seq<char>>,
    transfer: Seq<char>,
)
    ensures
        ({
            let menu = tray::menu_of(config, contexts, active, transfer);
            let n = visible(config, contexts).len() as int;
            &&& menu.len() == 8 + n + if active.len() == 0 {
                1
            } else {
                active.len() as int
            }
            &&& menu[0] == (EntryView::Item {
                label: "Tools"@,
                command: None,
                submenu: Some(
                    seq![
                        SubEntryView { label: "kubectl"@, command: None },
                        SubEntryView {
                            label: "Proxy: 127.0.0.1:"@ + text::decimal(config.port as nat),
                            command: None,
                        },
                    ],
                ),
            })
            &&& menu[1] == (EntryView::Item { label: transfer, command: None, submenu: None })
            &&& menu[2 + n] == EntryView::Separator
            &&& menu[3 + n] == (EntryView::Item {
                label: "Refresh Contexts"@,
                command: Some(CommandView::RefreshContexts),
                submenu: None,
            })
            &&& menu[4 + n] == (EntryView::Item {
                label: "Stop All"@,
                command: if active.len() > 0 {
                    Some(CommandView::StopAll)
                } else {
                    None
                },
                submenu: None,
            })
            &&& menu[5 + n] == (EntryView::Item {
                label: "Quit"@,
                command: Some(CommandView::Quit),
                submenu: None,
            })
            &&& menu[6 + n] == EntryView::Separator
            &&& menu[7 + n] == (EntryView::Item {
                label: "Active Forwards"@,
                command: None,
                submenu: None,
            })
            &&& active.len() == 0 ==> menu[8 + n] == (EntryView::Item {
                label: "No active forwards"@,
                command: None,
                submenu: None,
            })
        }),
{
    let menu = tray::menu_of(config, contexts, active, transfer);
    let n = visible(config, contexts).len() as int;
    let items = tray::context_entries(config, contexts, active);
    assert(items.len() == n);
    let controls = tray::control_entries(active.len() > 0);
    assert(controls.len() == 6);
    assert forall|i: int| 0 <= i < 6 implies menu[2 + n + i] == #[trigger] controls[i] by {}
    assert(menu[2 + n] == controls[0]);
    assert(menu[3 + n] == controls[1]);
    assert(menu[4 + n] == controls[2]);
    assert(menu[5 + n] == controls[3]);
    assert(menu[6 + n] == controls[4]);
    assert(menu[7 + n] == controls[5]);
    if active.len() == 0 {
        assert(menu[8 + n] == tray::active_entries(active, config.port)[0]);
    }
}

/// Every forward that runs has an item, in their order. It shows the route and its address, and
/// can copy that very address, or stop that very forward.
pub proof fn running_forwards_can_be_copied_and_stopped(
    config: ConfigView,
    contexts: Seq<Seq<char>>,
    active: Seq<Seq<char>>,
    transfer: Seq<char>,
    k: int,
)
    requires
        0 <= k < active.len(),
    ensures
        tray::menu_of(config, contexts, active, transfer)[8 + visible(config, contexts).len() + k]
            == (EntryView::Item {
            label: active[k] + seq![' ', '-', ' '] + labels::url_of(active[k], config.port),
            command: None,
            submenu: Some(
                seq![
                    SubEntryView {
                        label: "Copy URL to Clipboard"@,
                        command: Some(
                            CommandView::CopyUrl(labels::url_of(active[k], config.port)),
                        ),
                    },
                    SubEntryView {
                        label: "Stop"@,
                        command: Some(CommandView::Toggle(active[k])),
                    },
                ],
            ),
        }),
{
    reveal_strlit(" - ");
    let n = visible(config, contexts).len() as int;
    let items = tray::context_entries(config, contexts, active);
    assert(items.len() == n);
    let last = tray::active_entries(active, config.port);
    assert(tray::menu_of(config, contexts, active, transfer)[8 + n + k] == last[k]);
    assert(last[k] == tray::active_entry(active[k], config.port));
    assert(" - "@ =~= seq![' ', '-', ' ']);
}

/// Every context that is not ignored has an item, in their order. It shows the cluster that the
/// context reaches, and holds an item for each of its forwards that toggles that very forward
/// and says whether it runs; or says that there are none.
pub proof fn contexts_are_shown_with_their_services(
    config: ConfigView,
    contexts: Seq<Seq<char>>,
    active: Seq<Seq<char>>,
    transfer: Seq<char>,
    i: int,
    at: int,
)
    requires
        0 <= i < visible(config, contexts).len(),
        expansion::reaches(config, visible(config, contexts)[i], at),
        config.forwards(visible(config, contexts)[i]) is Ok,
    ensures
        ({
            let context = visible(config, contexts)[i];
            let all = config.forwards(context)->Ok_0;
            let entry = tray::menu_of(config, contexts, active, transfer)[2 + i];
            &&& entry is Item
            &&& entry->label == config.clusters[at].0 + seq![' ', '('] + context.push(')')
            &&& entry->command is None
            &&& entry->submenu is Some
            &&& all.len() == 0 ==> entry->submenu->0 == seq![
                SubEntryView { label: "No configured services"@, command: None },
            ]
            &&& all.len() > 0 ==> entry->submenu->0.len() == all.len() && forall|j: int|
                0 <= j < all.len() ==> #[trigger] entry->submenu->0[j] == (SubEntryView {
                    label: labels::service_text(
                        all[j].route,
                        exists|k: int| 0 <= k < active.len() && active[k] == all[j].route,
                    ),
                    command: Some(CommandView::Toggle(all[j].route)),
                })
        }),
{
    let shown = visible(config, contexts);
    let context = shown[i];
    let all = config.forwards(context)->Ok_0;
    let items = tray::context_entries(config, contexts, active);
    assert(items[i] == tray::context_entry(config, context, active));
    let entry = tray::menu_of(config, contexts, active, transfer)[2 + i];
    assert(entry == items[i]);
    expansion::contexts_reach_the_first_cluster_that_names_them(config.clusters, context);
    let served = forwards::serving(config.clusters, context)->0;
    if served < at {
        assert(!expansion::names_context(config.clusters[served], context));
    }
    if at < served {
        assert(!expansion::names_context(config.clusters[at], context));
    }
    crate::laws::labels::contexts_are_shown_after_their_cluster(config.clusters[at].0, context);
    let submenu = tray::forwards_submenu(all, active);
    assert(entry->submenu->0 == submenu);
    if all.len() > 0 {
        assert forall|j: int| 0 <= j < all.len() implies #[trigger] submenu[j] == (SubEntryView {
            label: labels::service_text(
                all[j].route,
                exists|k: int| 0 <= k < active.len() && active[k] == all[j].route,
            ),
            command: Some(CommandView::Toggle(all[j].route)),
        }) by {
            assert(submenu[j] == tray::forward_entry(all[j].route, active));
            assert(active.contains(all[j].route) <==> exists|k: int|
                0 <= k < active.len() && active[k] == all[j].route);
        }
    }
}

/// Whether an item asks for a command, itself or in its submenu.
pub open spec fn asks(entry: EntryView, command: CommandView) -> bool {
    match entry {
        EntryView::Separator => false,
        EntryView::Item { command: own, submenu, .. } => {
            ||| own == Some(command)
            ||| submenu matches Some(entries) && exists|j: int|
                0 <= j < entries.len() && (#[trigger] entries[j]).command == Some(command)
        },
    }
}

/// Only `Stop All` asks to stop all forwards, only `Refresh Contexts` to read the contexts, and
/// only `Quit` to end the program; none of them stands in a submenu.
pub proof fn only_their_items_act_on_everything(
    config: ConfigView,
    contexts: Seq<Seq<char>>,
    active: Seq<Seq<char>>,
    transfer: Seq<char>,
    i: int,
)
    requires
        0 <= i < tray::menu_of(config, contexts, active, transfer).len(),
    ensures
        ({
            let entry = tray::menu_of(config, contexts, active, transfer)[i];
            let n = visible(config, contexts).len() as int;
            &&& asks(entry, CommandView::StopAll) <==> i == 4 + n && active.len() > 0
            &&& asks(entry, CommandView::RefreshContexts) <==> i == 3 + n
            &&& asks(entry, CommandView::Quit) <==> i == 5 + n
            &&& !asks(entry, CommandView::UpdateTransferStats)
        }),
{
    let menu = tray::menu_of(config, contexts, active, transfer);
    let entry = menu[i];
    let n = visible(config, contexts).len() as int;
    menus_are_laid_out(config, contexts, active, transfer);
    let items = tray::context_entries(config, contexts, active);
    assert(items.len() == n);
    if 2 <= i < 2 + n {
        let context = visible(config, contexts)[i - 2];
        assert(entry == items[i - 2]);
        assert(items[i - 2] == tray::context_entry(config, context, active));
        let all = config.forwards(context)->Ok_0;
        let submenu = tray::forwards_submenu(all, active);
        assert(entry->submenu == Some(submenu));
        assert forall|j: int| 0 <= j < submenu.len() implies ((#[trigger] submenu[j]).command is None
            || submenu[j].command->0 is Toggle) by {
            if all.len() > 0 {
                assert(submenu[j] == tray::forward_entry(all[j].route, active));
            }
        }
    } else if i >= 8 + n && active.len() > 0 {
        running_forwards_can_be_copied_and_stopped(config, contexts, active, transfer, i - 8 - n);
    } else if i == 0 {
        assert(entry->submenu->0[0].command is None);
        assert(entry->submenu->0[1].command is None);
    }
}

/// What each command leads to: an address is copied as it stands, and the others are done.
pub proof fn commands_are_done(view: TrayView, url: Seq<char>)
    ensures
        tray::tray_action(view, CommandView::CopyUrl(url)) == TrayActionView::CopyUrl(url),
        tray::tray_action(view, CommandView::UpdateTransferStats)
            == TrayActionView::ShowTransferStats,
        tray::tray_action(view, CommandView::RefreshContexts) == TrayActionView::ReadContexts,
        tray::tray_action(view, CommandView::StopAll) == TrayActionView::StopAll,
        tray::tray_action(view, CommandView::Quit) == TrayActionView::Quit,
{
}

/// Whether a forward is one of those of a context that is not ignored.
pub open spec fn on_offer(config: ConfigView, contexts: Seq<Seq<char>>, f: ForwardView) -> bool {
    exists|at: int|
        0 <= at < contexts.len() && !config.ignore.contains(#[trigger] contexts[at])
            && config.forwards(contexts[at])->Ok_0.contains(f)
}

proof fn lemma_offered_is_on_offer(config: ConfigView, contexts: Seq<Seq<char>>, f: ForwardView)
    ensures
        tray::offered(config, contexts).contains(f) <==> on_offer(config, contexts, f),
    decreases contexts.len(),
{
    let all = tray::offered(config, contexts);
    if on_offer(config, contexts, f) {
        let at = choose|at: int|
            0 <= at < contexts.len() && !config.ignore.contains(#[trigger] contexts[at])
                && config.forwards(contexts[at])->Ok_0.contains(f);
        let some = config.forwards(contexts[at])->Ok_0;
        let i = choose|i: int| 0 <= i < some.len() && some[i] == f;
        lemma_offered(config, contexts, at, i);
    }
    if all.contains(f) && contexts.len() > 0 {
        let init = contexts.drop_last();
        let n = contexts.len() - 1;
        lemma_offered_is_on_offer(config, init, f);
        let first = tray::offered(config, init);
        let k = choose|k: int| 0 <= k < all.len() && all[k] == f;
        if k < first.len() {
            assert(first[k] == f);
            let at = choose|at: int|
                0 <= at < init.len() && !config.ignore.contains(#[trigger] init[at])
                    && config.forwards(init[at])->Ok_0.contains(f);
            assert(contexts[at] == init[at]);
        } else {
            let more = config.forwards(contexts[n])->Ok_0;
            assert(more[k - first.len()] == f);
            assert(!config.ignore.contains(contexts[n]));
        }
    }
}

/// A route is toggled if and only if a forward with that route is on offer, and then one of
/// these is; a route that is not on offer is left alone.
pub proof fn routes_on_offer_are_toggled(view: TrayView, route: Seq<char>)
    ensures
        match tray::tray_action(view, CommandView::Toggle(route)) {
            TrayActionView::Toggle(f) => f.route == route && on_offer(
                view.config,
                view.contexts,
                f,
            ),
            TrayActionView::Nothing => forall|f: ForwardView| #[trigger]
                on_offer(view.config, view.contexts, f) ==> f.route != route,
            _ => false,
        },
{
    let all = tray::offered(view.config, view.contexts);
    lemma_last_of_route(all, route);
    match tray::last_of_route(all, route) {
        Some(f) => {
            lemma_offered_is_on_offer(view.config, view.contexts, f);
        },
        None => {
            assert forall|f: ForwardView| #[trigger] on_offer(
                view.config,
                view.contexts,
                f,
            ) implies f.route != route by {
                lemma_offered_is_on_offer(view.config, view.contexts, f);
                let k = choose|k: int| 0 <= k < all.len() && all[k] == f;
                assert(all[k].route != route);
            }
        },
    }
}

/// The contexts of the menu are those listed that are not ignored and that a cluster other than
/// `all` names.
pub proof fn menu_contexts_are_those_that_reach_clusters(
    config: ConfigView,
    contexts: Seq<Seq<char>>,
    arranged: Seq<Seq<char>>,
    c: Seq<char>,
)
    requires
        tray::is_arranged(config, contexts, arranged),
        contexts.len() <= usize::MAX,
    ensures
        arranged.contains(c) <==> {
            &&& contexts.contains(c)
            &&& !config.ignore.contains(c)
            &&& exists|i: int|
                0 <= i < config.clusters.len() && expansion::names_context(
                    #[trigger] config.clusters[i],
                    c,
                )
        },
{
    let pred = tray::shown(config);
    let kept = contexts.filter(pred);
    expansion::contexts_reach_the_first_cluster_that_names_them(config.clusters, c);
    if let Some(i) = forwards::serving(config.clusters, c) {
        assert(expansion::names_context(config.clusters[i], c));
    }
    assert(pred(c) <==> !config.ignore.contains(c) && exists|i: int|
        0 <= i < config.clusters.len() && expansion::names_context(
            #[trigger] config.clusters[i],
            c,
        ));
    arranged_contexts_are_shown(config, contexts, arranged);
    if arranged.contains(c) {
        let k = choose|k: int| 0 <= k < arranged.len() && arranged[k] == c;
        assert(contexts.contains(arranged[k]) && pred(arranged[k]));
    }
    if contexts.contains(c) && pred(c) {
        let order = choose|order: Seq<usize>|
            order::arranges(kept.map_values(tray::cluster_of(config)), order) && arranged
                == order.map_values(|p: usize| kept[p as int]);
        let at = choose|at: int| 0 <= at < contexts.len() && contexts[at] == c;
        configuration::lemma_filter_holds(contexts, pred, at);
        let p = choose|p: int| 0 <= p < kept.len() && kept[p] == c;
        assert(order.contains(p as usize));
        let k = choose|k: int| 0 <= k < order.len() && order[k] == p as usize;
        assert(arranged[k] == c);
    }
}

/// The contexts of the menu stand by rising name of the cluster that each reaches.
pub proof fn menu_contexts_stand_by_cluster(
    config: ConfigView,
    contexts: Seq<Seq<char>>,
    arranged: Seq<Seq<char>>,
    i: int,
    j: int,
    at_i: int,
    at_j: int,
)
    requires
        tray::is_arranged(config, contexts, arranged),
        0 <= i < j < arranged.len(),
        expansion::reaches(config, arranged[i], at_i),
        expansion::reaches(config, arranged[j], at_j),
    ensures
        order::text_le(config.clusters[at_i].0, config.clusters[at_j].0),
{
    menu_contexts_rise_by_cluster(config, contexts, arranged, i, j);
    lemma_reaches(config, arranged[i], at_i);
    lemma_reaches(config, arranged[j], at_j);
}

proof fn lemma_reaches(config: ConfigView, context: Seq<char>, at: int)
    requires
        expansion::reaches(config, context, at),
    ensures
        forwards::serving(config.clusters, context) == Some(at),
{
    expansion::contexts_reach_the_first_cluster_that_names_them(config.clusters, context);
    let served = forwards::serving(config.clusters, context)->0;
    if served < at {
        assert(!expansion::names_context(config.clusters[served], context));
    }
    if at < served {
        assert(!expansion::names_context(config.clusters[at], context));
    }
}

/// A forward that is started is among those that run, with all that ran before; one that is
/// stopped is not, and all others still are. Those that run stand by rising route, each once.
pub proof fn running_routes_follow_toggles(
    before: Seq<Seq<char>>,
    route: Seq<char>,
    after: Seq<Seq<char>>,
    other: Seq<char>,
)
    ensures
        tray::is_inserted(before, route, after) ==> {
            &&& after.contains(route)
            &&& other != route ==> after.contains(other) == before.contains(other)
        },
        tray::is_removed(before, route, after) ==> {
            &&& !after.contains(route)
            &&& other != route ==> after.contains(other) == before.contains(other)
        },
        tray::is_inserted(before, route, after) || tray::is_removed(before, route, after)
            ==> forall|i: int, j: int|
            0 <= i < j < after.len() ==> order::text_le(#[trigger] after[i], #[trigger] after[j])
                && after[i] != after[j],
{
    if kube::rising(after) {
        assert forall|i: int, j: int| 0 <= i < j < after.len() implies order::text_le(
            #[trigger] after[i],
            #[trigger] after[j],
        ) && after[i] != after[j] by {
            assert(order::text_lt(after[i], after[j]));
        }
    }
}

/// What the menu offers is what it offered with one context less, and then the forwards of that
/// context, unless it is ignored.
pub proof fn further_contexts_add_to_the_offer(
    config: ConfigView,
    contexts: Seq<Seq<char>>,
    context: Seq<char>,
)
    ensures
        tray::offered(config, Seq::empty()).len() == 0,
        tray::offered(config, contexts.push(context)) == tray::offered(config, contexts) + if config.ignore.contains(
            context,
        ) {
            Seq::empty()
        } else {
            config.forwards(context)->Ok_0
        },
{
    let longer = contexts.push(context);
    assert(longer.drop_last() =~= contexts);
    assert(longer.last() == context);
    let before = tray::offered(config, contexts);
    assert(before + Seq::<ForwardView>::empty() =~= before);
}

/// Of several forwards with one route on offer, the last is toggled.
pub proof fn the_last_of_a_route_is_toggled(view: TrayView, k: int)
    requires
        0 <= k < tray::offered(view.config, view.contexts).len(),
        forall|j: int|
            k < j < tray::offered(view.config, view.contexts).len() ==> (#[trigger] tray::offered(
                view.config,
                view.contexts,
            )[j]).route != tray::offered(view.config, view.contexts)[k].route,
    ensures
        tray::tray_action(
            view,
            CommandView::Toggle(tray::offered(view.config, view.contexts)[k].route),
        ) == TrayActionView::Toggle(tray::offered(view.config, view.contexts)[k]),
{
    lemma_last_at(tray::offered(view.config, view.contexts), k);
}

proof fn lemma_last_at(all: Seq<ForwardView>, k: int)
    requires
        0 <= k < all.len(),
        forall|j: int| k < j < all.len() ==> (#[trigger] all[j]).route != all[k].route,
    ensures
        tray::last_of_route(all, all[k].route) == Some(all[k]),
    decreases all.len(),
{
    let n = all.len() - 1;
    if k < n {
        assert(all[n].route != all[k].route);
        let init = all.drop_last();
        assert(init[k] == all[k]);
        assert forall|j: int| k < j < init.len() implies (#[trigger] init[j]).route
            != init[k].route by {
            assert(init[j] == all[j]);
        }
        lemma_last_at(init, k);
    }
}

} // verus!
