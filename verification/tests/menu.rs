use konnect::labels::{listing_line, service_name};
use konnect::tray::{
    configured_contexts, Command, MenuEntry, TrayAction, TrayState, TRANSFER_STATS_ITEM_INDEX,
};
use konnect::{Cluster, Config, ForwardSpec, Service};

fn service(name: &str) -> Service {
    Service {
        name: Some(name.to_owned()),
        namespace: "default".to_owned(),
        remote_port: 8080,
        local_port: None,
        target: None,
        service: Some(name.to_owned()),
        pod: None,
    }
}

fn config() -> Config {
    let mut config = Config::default();
    config.contexts.ignore.push("ctx-ignored".to_owned());
    for (name, context, services) in [
        ("usa", "ctx-1", vec![service("api"), service("db")]),
        ("china", "ctx-2", vec![]),
        ("hidden", "ctx-ignored", vec![service("api")]),
    ] {
        config.clusters.insert(
            name.to_owned(),
            Cluster {
                context: Some(context.to_owned()),
                services,
            },
        );
    }
    config.validate().unwrap();
    config
}

fn contexts() -> Vec<String> {
    ["ctx-1", "ctx-2", "ctx-ignored", "elsewhere"]
        .iter()
        .map(|s| s.to_string())
        .collect()
}

fn state() -> TrayState {
    TrayState::new(config(), contexts()).unwrap().0
}

fn shape(menu: &[MenuEntry]) -> Vec<String> {
    menu.iter()
        .map(|entry| match entry {
            MenuEntry::Separator => "---".to_owned(),
            MenuEntry::Item { label, command, submenu } => {
                let asks = if command.is_some() { " !" } else { "" };
                let inner = match submenu {
                    None => String::new(),
                    Some(items) => {
                        let items: Vec<String> = items
                            .iter()
                            .map(|i| {
                                let asks = if i.command.is_some() { " !" } else { "" };
                                format!("{}{}", i.label, asks)
                            })
                            .collect();
                        format!(" [{}]", items.join(", "))
                    }
                };
                format!("{}{}{}", label, asks, inner)
            }
        })
        .collect()
}

#[test]
fn contexts_are_shown_by_cluster() {
    let shown = configured_contexts(&config(), contexts());
    assert_eq!(shown, vec!["ctx-2", "ctx-1"]);
}

#[test]
fn routes_are_set_up_for_every_forward() {
    let (_, forwards) = TrayState::new(config(), contexts()).unwrap();
    let routes: Vec<&str> = forwards.iter().map(|f| f.route.as_str()).collect();
    assert_eq!(routes, vec!["usa.api", "usa.db"]);
}

#[test]
fn a_context_that_is_listed_twice_is_refused() {
    let contexts = vec!["ctx-1".to_owned(), "ctx-1".to_owned()];
    assert!(TrayState::new(config(), contexts).is_err());
}

#[test]
fn the_menu_shows_contexts_controls_and_forwards() {
    let mut state = state();
    assert_eq!(
        shape(&state.menu("Sent: 0")),
        vec![
            "Tools [kubectl, Proxy: 127.0.0.1:1355]",
            "Sent: 0",
            "china (ctx-2) [No configured services]",
            "usa (ctx-1) [api !, db !]",
            "---",
            "Refresh Contexts !",
            "Stop All",
            "Quit !",
            "---",
            "Active Forwards",
            "No active forwards",
        ]
    );
    state.toggled("usa.db", true);
    state.toggled("usa.api", true);
    state.toggled("usa.db", true);
    let menu = state.menu("Sent: 1");
    assert_eq!(
        shape(&menu)[3..],
        [
            "usa (ctx-1) [api (active) !, db (active) !]",
            "---",
            "Refresh Contexts !",
            "Stop All !",
            "Quit !",
            "---",
            "Active Forwards",
            "usa.api - http://usa.api.localhost:1355 [Copy URL to Clipboard !, Stop !]",
            "usa.db - http://usa.db.localhost:1355 [Copy URL to Clipboard !, Stop !]",
        ]
    );
    match &menu[TRANSFER_STATS_ITEM_INDEX] {
        MenuEntry::Item { label, .. } => assert_eq!(label, "Sent: 1"),
        MenuEntry::Separator => panic!("no item"),
    }
    state.toggled("usa.api", false);
    assert_eq!(shape(&state.menu("")).len(), 11);
    state.all_stopped();
    assert_eq!(shape(&state.menu(""))[10], "No active forwards");
}

#[test]
fn commands_are_carried_out() {
    let state = state();
    match state.handle(Command::Toggle("usa.db".to_owned())) {
        TrayAction::Toggle(forward) => {
            assert_eq!(forward.route, "usa.db");
            assert_eq!(forward.target, "svc/db");
            assert_eq!(forward.context, "ctx-1");
        }
        other => panic!("{:?}", other),
    }
    assert!(matches!(
        state.handle(Command::Toggle("hidden.api".to_owned())),
        TrayAction::Nothing
    ));
    match state.handle(Command::CopyUrl("http://x".to_owned())) {
        TrayAction::CopyUrl(url) => assert_eq!(url, "http://x"),
        other => panic!("{:?}", other),
    }
    assert!(matches!(
        state.handle(Command::UpdateTransferStats),
        TrayAction::ShowTransferStats
    ));
    assert!(matches!(
        state.handle(Command::RefreshContexts),
        TrayAction::ReadContexts
    ));
    assert!(matches!(state.handle(Command::StopAll), TrayAction::StopAll));
    assert!(matches!(state.handle(Command::Quit), TrayAction::Quit));
}

#[test]
fn contexts_are_read_again() {
    let mut state = state();
    state.toggled("usa.api", true);
    state.contexts_read(vec!["ctx-2".to_owned()]);
    assert!(matches!(
        state.handle(Command::Toggle("usa.api".to_owned())),
        TrayAction::Nothing
    ));
    let shown = shape(&state.menu(""));
    assert_eq!(shown[2], "china (ctx-2) [No configured services]");
    assert_eq!(
        shown[9],
        "usa.api - http://usa.api.localhost:1355 [Copy URL to Clipboard !, Stop !]"
    );
}

#[test]
fn listings_are_aligned() {
    let forward = ForwardSpec {
        route: "usa.api".to_owned(),
        context: "ctx-1".to_owned(),
        namespace: "default".to_owned(),
        target: "svc/api".to_owned(),
        remote_port: 8080,
        local_port: None,
    };
    assert_eq!(
        listing_line(&forward, 1355),
        format!(
            "{:<36} http://{}:{}  {} ({})",
            "usa.api", "usa.api.localhost", 1355, "svc/api", "ctx-1"
        )
    );
    let long = ForwardSpec {
        route: "a".repeat(40),
        ..forward
    };
    assert!(listing_line(&long, 1).starts_with(&format!("{} http://", "a".repeat(40))));
}

#[test]
fn routes_without_a_dot_are_shown_whole() {
    assert_eq!(service_name("grafana"), "grafana");
    assert_eq!(service_name("a.b.c"), "c");
    assert_eq!(service_name("a."), "");
}
