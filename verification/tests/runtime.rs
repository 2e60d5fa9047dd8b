use konnect::forward::{
    attempt_event, forward_outcome, forward_output, port_forward_args, retry_notice, ForwardAction,
    ForwardEvent, ForwardRun,
};
use konnect::kube::{
    contexts_from_listing, contexts_from_output, kube_contexts, kubectl_directories, search_order,
    Directory, KubeError, PathPart,
};
use konnect::location::{config_path, home_steps, may_write, ConfigLocation};
use konnect::order::{distinct_order, stable_order, text_before};
use konnect::proxy::{
    host_action, reply_text, request_host, route_request, HeadProgress, ProxyAction, RequestHead,
    MAX_HEADER_BYTES,
};
use konnect::table::{ForwardTable, RouteMap, RouteStatus, Toggled};
use konnect::text::{chars_of, is_whitespace, parse_port, push_decimal, string_of, trim_bounds};
use konnect::{browser_host, canonical_route, parse_forwarded_port, route_name, ForwardSpec, TransferStats};

fn forward(route: &str) -> ForwardSpec {
    ForwardSpec {
        route: route.to_owned(),
        context: "kind-dev".to_owned(),
        namespace: "default".to_owned(),
        target: "svc/api".to_owned(),
        remote_port: 8080,
        local_port: None,
    }
}

fn started(table: &mut ForwardTable, route: &str) -> usize {
    match table.toggle(route) {
        Toggled::Started(slot) => slot,
        Toggled::Stopped(_) => panic!("already forwarded"),
    }
}

#[test]
fn whitespace_is_that_of_unicode() {
    for code in 0..=0x10ffff_u32 {
        if let Some(c) = char::from_u32(code) {
            assert_eq!(is_whitespace(c), c.is_whitespace(), "{:?}", c);
        }
    }
}

#[test]
fn texts_are_trimmed_as_std_does() {
    for s in ["", " ", " a b\t", "\u{3000}x\u{85}", "plain", "\r\nhost\r\n"] {
        let v = chars_of(s);
        let (a, b) = trim_bounds(&v);
        assert_eq!(string_of(&v[a..b]), s.trim());
    }
}

#[test]
fn texts_are_ordered_as_std_does() {
    let texts = ["", "a", "aa", "b", "-", "/", "Z", "é", "\u{ffff}", "\u{10000}", "\u{7f}", "\u{80}", "\u{7ff}", "\u{800}"];
    for a in texts {
        for b in texts {
            assert_eq!(text_before(a, b), a <= b, "{:?} {:?}", a, b);
        }
    }
}

#[test]
fn numbers_are_written_and_read_in_decimal() {
    for n in [0_u64, 7, 10, 99, 100, 1355, 65535, u64::MAX] {
        let mut s = String::new();
        push_decimal(&mut s, n);
        assert_eq!(s, n.to_string());
    }
    for s in ["0", "+7", "007", "65535", "65536", "", "+", "-1", " 1", "1 ", "1_0", "99999999999999999999", "٣"] {
        assert_eq!(parse_port(&chars_of(s)), s.parse::<u16>().ok(), "{:?}", s);
    }
}

#[test]
fn stable_orders_keep_ties_in_place() {
    let keys: Vec<String> = ["b", "a", "b", "c", "a"].iter().map(|s| s.to_string()).collect();
    assert_eq!(stable_order(&keys), vec![1, 4, 0, 2, 3]);
    assert_eq!(distinct_order(&keys), vec![1, 0, 3]);
}

#[test]
fn routes_and_hosts_follow_each_other() {
    assert_eq!(route_name("usa", "grafana"), "usa.grafana");
    assert_eq!(browser_host("usa.grafana"), "usa.grafana.localhost");
    for asked in [
        "usa.grafana.localhost",
        "USA.Grafana.LocalHost:1355",
        "usa.grafana.localhost:",
        "  usa.grafana.localhost.. \t",
        "[usa.grafana.localhost]",
        "usa.grafana",
    ] {
        assert_eq!(canonical_route(asked), "usa.grafana", "{:?}", asked);
    }
    assert_eq!(canonical_route("usa.grafana:http"), "usa.grafana:http");
    assert_eq!(canonical_route("[::1]"), ":");
    assert_eq!(canonical_route("["), "[");
    assert_eq!(canonical_route("[]"), "");
    assert_eq!(canonical_route(""), "");
    assert_eq!(canonical_route("usa.localhost.localhost"), "usa.localhost");
    assert_eq!(canonical_route("usa.localhost"), "usa");
    assert_eq!(canonical_route("ÉTÉ.localhost"), "ÉtÉ");
}

#[test]
fn reported_ports_are_read_from_lines() {
    assert_eq!(parse_forwarded_port("Forwarding from [::1]:80 -> 8080"), Some(80));
    assert_eq!(parse_forwarded_port("Forwarding from 127.0.0.1:+80 -> 8080"), Some(80));
    assert_eq!(parse_forwarded_port("Forwarding from 127.0.0.1:70000 -> 8080"), None);
    assert_eq!(parse_forwarded_port("Forwarding from 127.0.0.1 -> 8080"), None);
    assert_eq!(parse_forwarded_port("Forwarding from 127.0.0.1:80"), None);
    assert_eq!(parse_forwarded_port("forwarding from 127.0.0.1:80 -> 1"), None);
    assert_eq!(parse_forwarded_port("Forwarding from a:1 -> b:2 -> c"), Some(1));
    assert_eq!(parse_forwarded_port("Handling connection for 80"), None);
}

#[test]
fn tables_follow_their_forwards() {
    let mut table = ForwardTable::new(&[forward("dev.api"), forward("dev.db")]);
    assert_eq!(table.status("dev.api"), RouteStatus::Connecting);
    assert_eq!(table.status("dev.none"), RouteStatus::Unknown);
    assert!(!table.is_active("dev.api"));
    let api = started(&mut table, "dev.api");
    let db = started(&mut table, "dev.db");
    assert!(table.is_active("dev.api"));
    table.set_port(api, Some(1001));
    table.set_port(db, Some(1002));
    assert_eq!(table.status("dev.api"), RouteStatus::Ready(1001));
    assert_eq!(table.status("dev.db"), RouteStatus::Ready(1002));
    assert_eq!(table.port(api), Some(1001));
    assert_eq!(table.port(99), None);

    assert_eq!(table.toggle("dev.api"), Toggled::Stopped(api));
    assert_eq!(table.status("dev.api"), RouteStatus::Connecting);
    assert_eq!(table.status("dev.db"), RouteStatus::Ready(1002));
    let again = started(&mut table, "dev.api");
    table.set_port(api, Some(1003));
    assert_eq!(table.status("dev.api"), RouteStatus::Connecting);
    table.set_port(again, Some(1004));
    assert_eq!(table.status("dev.api"), RouteStatus::Ready(1004));

    let mut slots = table.stop_all();
    slots.sort();
    assert_eq!(slots, vec![db, again]);
    assert_eq!(table.status("dev.api"), RouteStatus::Connecting);
    assert_eq!(table.status("dev.db"), RouteStatus::Connecting);
    assert!(!table.is_active("dev.db"));
    assert!(table.stop_all().is_empty());
    table.set_port(99, Some(1));
    assert_eq!(table.status("dev.none"), RouteStatus::Unknown);
    started(&mut table, "dev.none");
    assert_eq!(table.status("dev.none"), RouteStatus::Connecting);
}

#[test]
fn route_maps_hold_each_route_once() {
    let mut map = RouteMap::new();
    map.insert("a", 1);
    map.insert("b", 2);
    map.insert("a", 3);
    assert_eq!(map.get("a"), Some(3));
    assert_eq!(map.slots().len(), 2);
    assert_eq!(map.remove("a"), Some(3));
    assert_eq!(map.remove("a"), None);
    assert_eq!(map.get("a"), None);
    assert_eq!(map.get("b"), Some(2));
}

#[test]
fn delays_double_up_to_the_longest() {
    let mut run = ForwardRun::new();
    assert_eq!(run.next(ForwardEvent::Begun { stopping: false }), ForwardAction::Attempt);
    for delay in [1, 2, 4, 8, 16, 30, 30, 30] {
        assert_eq!(run.next(ForwardEvent::Failed), ForwardAction::Wait(delay));
        assert_eq!(run.next(ForwardEvent::Waited { stopping: false }), ForwardAction::Attempt);
    }
    assert_eq!(run.next(ForwardEvent::Ended), ForwardAction::Quit);
    assert_eq!(run.next(ForwardEvent::Interrupted), ForwardAction::Quit);
    assert_eq!(run.next(ForwardEvent::Waited { stopping: true }), ForwardAction::Quit);
    assert_eq!(run.next(ForwardEvent::Begun { stopping: true }), ForwardAction::Quit);
}

#[test]
fn kubectl_is_called_and_read() {
    assert_eq!(
        port_forward_args(&forward("dev.api")),
        vec![
            "--context", "kind-dev", "port-forward", "--address", "127.0.0.1", "--namespace",
            "default", "svc/api", "0:8080"
        ]
    );
    assert_eq!(
        forward_output("dev.api", "Forwarding from 127.0.0.1:49152 -> 8080"),
        (Some(49152), "dev.api: connected on 127.0.0.1:49152".to_owned())
    );
    assert_eq!(
        forward_output("dev.api", "error: lost"),
        (None, "dev.api: error: lost".to_owned())
    );
    let outcome = forward_outcome(false, "exit status: 1");
    assert_eq!(attempt_event(&outcome), ForwardEvent::Failed);
    assert_eq!(
        outcome.unwrap_err(),
        "kubectl port-forward exited with exit status: 1"
    );
    let outcome = forward_outcome(true, "signal: 9");
    assert_eq!(attempt_event(&outcome), ForwardEvent::Ended);
    assert!(outcome.is_ok());
    assert_eq!(
        retry_notice("dev.api", "lost", 16),
        "dev.api: lost; retrying in 16s"
    );
}

#[test]
fn heads_end_at_a_blank_line() {
    let mut head = RequestHead::new();
    assert_eq!(head.push(b"GET / HTTP/1.1\r\n"), HeadProgress::Partial);
    assert_eq!(head.push(b"\r"), HeadProgress::Partial);
    assert_eq!(head.push(b"\nbody"), HeadProgress::Complete);
    assert_eq!(head.bytes(), b"GET / HTTP/1.1\r\n\r\nbody");
    assert_eq!(RequestHead::new().push(b""), HeadProgress::Closed);
    let mut head = RequestHead::new();
    assert_eq!(head.push(&vec![b'a'; MAX_HEADER_BYTES]), HeadProgress::Partial);
    assert_eq!(head.push(b"a"), HeadProgress::TooLong);
    let mut head = RequestHead::new();
    let mut long = vec![b'a'; MAX_HEADER_BYTES];
    long.extend_from_slice(b"\r\n\r\n");
    assert_eq!(head.push(&long), HeadProgress::Complete);
}

#[test]
fn requests_name_their_host() {
    assert_eq!(
        request_host(b"GET / HTTP/1.1\r\nAccept: */*\r\nHOST:  a.b:1 \r\nHost: c\r\n\r\n"),
        Some("a.b:1")
    );
    assert_eq!(request_host(b"Host: first-line\r\nX: y\r\n\r\n"), None);
    assert_eq!(request_host(b"GET / HTTP/1.1"), None);
    assert_eq!(request_host(b"GET /\r\nHost: \xff\r\n\r\n"), None);
    assert_eq!(request_host(b"GET /\r\nHost\r\n\r\n"), None);
    assert_eq!(request_host(b"GET /\r\nHost:\r\n\r\n"), Some(""));
    assert_eq!(
        request_host("GET /\u{e9}\r\nX-\u{e9}: 1\r\nhost: \u{e9}.b".as_bytes()),
        Some("\u{e9}.b")
    );
}

#[test]
fn requests_reach_their_route() {
    let mut table = ForwardTable::new(&[forward("dev.api"), forward("dev.db")]);
    let slot = started(&mut table, "dev.api");
    table.set_port(slot, Some(4000));
    match route_request(&table, b"GET / HTTP/1.1\r\nHost: DEV.api.localhost:1355\r\n\r\n") {
        Some(ProxyAction::Connect { route, port }) => {
            assert_eq!((route.as_str(), port), ("dev.api", 4000));
        }
        other => panic!("{:?}", other),
    }
    match host_action(&table, "dev.db.localhost") {
        ProxyAction::Reply { status, message } => {
            assert_eq!(status, 503);
            assert_eq!(message, "Konnect route is still connecting");
        }
        other => panic!("{:?}", other),
    }
    match host_action(&table, "dev.other.localhost") {
        ProxyAction::Reply { status, message } => {
            assert_eq!(
                reply_text(status, &message),
                "HTTP/1.1 404 Unknown Konnect route\r\nContent-Length: 0\r\nConnection: close\r\n\r\n"
            );
        }
        other => panic!("{:?}", other),
    }
    assert!(route_request(&table, b"GET / HTTP/1.0\r\n\r\n").is_none());
}

#[test]
fn transfers_add_up_and_wrap() {
    let mut stats = TransferStats::default();
    stats.record_sent(5);
    stats.record_received(7);
    stats.record_sent(u64::MAX);
    assert_eq!(stats.snapshot(), (4, 7));
}

#[test]
fn listed_contexts_are_sorted_and_each_once() {
    assert_eq!(
        contexts_from_listing("b\r\n a \n\n\u{a0}\nb\nc").unwrap(),
        vec!["a", "b", "c"]
    );
    let error = contexts_from_listing(" \n").unwrap_err();
    assert!(matches!(error, KubeError::NoContexts));
    assert_eq!(error.message(), "kubectl did not return any kube contexts");
    assert_eq!(
        kube_contexts(true, b"dev\nbad\xff\n", b"ignored").unwrap(),
        vec!["bad\u{fffd}", "dev"]
    );
    let error = kube_contexts(false, b"dev\n", b" no config\xff \n").unwrap_err();
    assert_eq!(
        error.message(),
        "kubectl config get-contexts failed: no config\u{fffd}"
    );
    assert_eq!(
        contexts_from_output(false, "", " why ").unwrap_err().message(),
        "kubectl config get-contexts failed: why"
    );
}

fn directory(path: &str) -> Directory {
    let parts = std::path::Path::new(path)
        .components()
        .map(|c| match c {
            std::path::Component::Prefix(_) => PathPart { rank: 0, name: vec![] },
            std::path::Component::RootDir => PathPart { rank: 1, name: vec![] },
            std::path::Component::CurDir => PathPart { rank: 2, name: vec![] },
            std::path::Component::ParentDir => PathPart { rank: 3, name: vec![] },
            std::path::Component::Normal(name) => PathPart {
                rank: 4,
                name: name.to_str().unwrap().as_bytes().to_vec(),
            },
        })
        .collect();
    Directory { parts }
}

#[test]
fn directories_are_searched_as_sorted_paths() {
    let mut paths: Vec<String> = kubectl_directories();
    assert_eq!(paths, vec!["/opt/homebrew/bin", "/usr/local/bin", "/usr/bin", "/bin"]);
    for more in ["/usr/bin/", "/a-b", "/a/b", ".", "..", "rel", "/", "/usr", "/bin/./x", "/usr//local/bin"] {
        paths.push(more.to_owned());
    }
    let keys: Vec<Directory> = paths.iter().map(|p| directory(p)).collect();
    let found: Vec<&str> = search_order(&keys).into_iter().map(|i| paths[i].as_str()).collect();
    let mut expected: Vec<std::path::PathBuf> = paths.iter().map(std::path::PathBuf::from).collect();
    expected.sort();
    expected.dedup();
    let expected: Vec<&str> = expected.iter().map(|p| p.to_str().unwrap()).collect();
    assert_eq!(found, expected);
}

#[test]
fn configurations_are_looked_for_in_order() {
    let at = |r: ConfigLocation<&str>| match r {
        ConfigLocation::At(p) => ("at", p.to_owned()),
        ConfigLocation::UnderHome(p) => ("home", p.to_owned()),
    };
    assert_eq!(
        at(config_path(Some("arg"), Some("var"), Some("home"), None).unwrap()),
        ("at", "arg".to_owned())
    );
    assert_eq!(
        at(config_path(None, Some("var"), Some("home"), None).unwrap()),
        ("at", "var".to_owned())
    );
    assert_eq!(
        at(config_path(None, None, Some("home"), Some("profile")).unwrap()),
        ("home", "home".to_owned())
    );
    assert_eq!(
        at(config_path(None, None, None, Some("profile")).unwrap()),
        ("home", "profile".to_owned())
    );
    assert_eq!(
        config_path::<&str>(None, None, None, None).unwrap_err().message(),
        "HOME is not set; use KONNECT_CONFIG to set a config path"
    );
    assert_eq!(home_steps(), (".konnect", "config.json"));
    assert!(may_write(false, false));
    assert!(may_write(true, true));
    assert!(!may_write(true, false));
}
