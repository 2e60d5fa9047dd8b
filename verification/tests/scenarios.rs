use konnect::labels::{active_url, context_label, service_label, service_name, transfer_label};
use konnect::proxy::{route_request, HeadProgress, ProxyAction, RequestHead};
use konnect::table::{ForwardTable, RouteStatus, Toggled};
use konnect::{
    canonical_route, parse_forwarded_port, Cluster, Config, ForwardSpec, Service, TransferStats,
    EXAMPLE_CONFIG,
};
use serde_json::Value;

fn text(value: &Value, key: &str) -> Option<String> {
    value.get(key).and_then(|v| v.as_str()).map(|s| s.to_owned())
}

fn port(value: &Value, key: &str) -> Option<u16> {
    value.get(key).and_then(|v| v.as_u64()).map(|n| n as u16)
}

fn service(value: &Value) -> Service {
    Service {
        name: text(value, "name"),
        namespace: text(value, "namespace").unwrap(),
        remote_port: port(value, "remote_port").unwrap(),
        local_port: port(value, "local_port"),
        target: text(value, "target"),
        service: text(value, "service"),
        pod: text(value, "pod"),
    }
}

fn config(json: &str) -> Config {
    let value: Value = serde_json::from_str(json).unwrap();
    let mut config = Config::default();
    config.schema = text(&value, "$schema");
    if let Some(proxy) = value.get("proxy") {
        if let Some(number) = port(proxy, "port") {
            config.proxy.port = number;
        }
    }
    if let Some(ignore) = value.get("contexts").and_then(|c| c.get("ignore")) {
        for context in ignore.as_array().unwrap() {
            config.contexts.ignore.push(context.as_str().unwrap().to_owned());
        }
    }
    if let Some(clusters) = value.get("clusters") {
        for (name, cluster) in clusters.as_object().unwrap() {
            let mut entry = Cluster::default();
            entry.context = text(cluster, "context");
            if let Some(services) = cluster.get("service") {
                for s in services.as_array().unwrap() {
                    entry.services.push(service(s));
                }
            }
            config.clusters.insert(name.clone(), entry);
        }
    }
    config
}

#[test]
fn checked_in_example_config_is_valid() {
    let config = config(EXAMPLE_CONFIG);
    config.validate().unwrap();
    assert_eq!(config.proxy.port, 1355);
    let forwards = config.forwards_for_context("my-usa-kube-context").unwrap();
    assert_eq!(forwards[0].route, "usa.grafana");
    assert_eq!(forwards[1].local_port, Some(15432));
}

#[test]
fn accepts_service_and_pod_targets() {
    let config = config(
        r#"{
            "clusters": {
                "dev": {
                    "context": "kind-dev",
                    "service": [
                        {"name": "api", "namespace": "default", "service": "api", "remote_port": 8080},
                        {"name": "worker", "namespace": "default", "pod": "worker-123", "remote_port": 9000}
                    ]
                }
            }
        }"#,
    );
    config.validate().unwrap();
    let forwards = config.forwards_for_context("kind-dev").unwrap();
    assert_eq!(forwards[0].route, "dev.api");
    assert_eq!(forwards[0].target, "svc/api");
    assert_eq!(forwards[1].target, "pod/worker-123");
}

#[test]
fn rejects_ambiguous_targets() {
    let config = config(
        r#"{
            "clusters": {
                "dev": {
                    "context": "kind-dev",
                    "service": [
                        {"name": "api", "namespace": "default", "service": "api", "pod": "api-123", "remote_port": 8080}
                    ]
                }
            }
        }"#,
    );
    assert!(config.validate().unwrap_err().message().contains("exactly one"));
}

#[test]
fn identifies_configured_kube_contexts() {
    let config = config(
        r#"{
            "contexts": {"ignore": ["docker-desktop"]},
            "clusters": {
                "staging": {
                    "context": "arn:example:staging",
                    "service": [
                        {"name": "grafana", "namespace": "observability", "service": "grafana", "remote_port": 3000}
                    ]
                }
            }
        }"#,
    );
    config.validate().unwrap();
    assert_eq!(
        config.forwards_for_context("arn:example:staging").unwrap()[0].route,
        "staging.grafana"
    );
    assert!(config.configured_context("arn:example:staging"));
    assert!(!config.configured_context("kind-dev"));
    assert_eq!(
        config.cluster_name_for_context("arn:example:staging"),
        Some("staging")
    );
    assert!(config.forwards_for_context("kind-dev").unwrap().is_empty());
    assert!(config.ignored_context("docker-desktop"));
}

#[test]
fn expands_all_services_and_allows_context_overrides() {
    let config = config(
        r#"{
            "clusters": {
                "all": {
                    "service": [
                        {"name": "api", "namespace": "default", "service": "api", "remote_port": 8080},
                        {"name": "metrics", "namespace": "observability", "service": "metrics-server", "remote_port": 443}
                    ]
                },
                "staging": {
                    "context": "team-staging",
                    "service": [
                        {"name": "api", "namespace": "staging", "pod": "api-123", "remote_port": 9000}
                    ]
                },
                "kind": {"context": "kind-dev"}
            }
        }"#,
    );
    config.validate().unwrap();

    let staging = config.forwards_for_context("team-staging").unwrap();
    assert_eq!(staging[0].route, "staging.api");
    assert_eq!(staging[0].target, "pod/api-123");
    assert_eq!(staging[1].route, "staging.metrics");

    let other = config.forwards_for_context("kind-dev").unwrap();
    assert_eq!(other[0].route, "kind.api");
    assert_eq!(other[0].target, "svc/api");
    assert_eq!(other[1].route, "kind.metrics");
}

#[test]
fn derives_a_service_name_from_the_target() {
    let config = config(
        r#"{
            "clusters": {
                "usa": {
                    "context": "my-usa-kube-context",
                    "service": [
                        {"namespace": "observability", "target": "svc/grafana", "remote_port": 3000}
                    ]
                }
            }
        }"#,
    );
    config.validate().unwrap();
    assert_eq!(
        config.forwards_for_context("my-usa-kube-context").unwrap()[0].route,
        "usa.grafana"
    );
}

#[test]
fn normalizes_browser_hosts_to_route_names() {
    assert_eq!(
        canonical_route("Staging.Grafana.localhost:1355"),
        "staging.grafana"
    );
    assert_eq!(canonical_route("staging.grafana"), "staging.grafana");
}

#[test]
fn parses_kubectl_assigned_port() {
    assert_eq!(
        parse_forwarded_port("Forwarding from 127.0.0.1:49152 -> 8080"),
        Some(49152)
    );
}

#[test]
fn proxies_a_localhost_route_to_its_upstream() {
    const REQUEST: &[u8] =
        b"GET / HTTP/1.1\r\nHost: dev.api.localhost\r\nConnection: close\r\n\r\n";
    const RESPONSE: &[u8] = b"HTTP/1.1 200 OK\r\nContent-Length: 2\r\n\r\nOK";
    let forward = ForwardSpec {
        route: "dev.api".to_owned(),
        context: "kind-dev".to_owned(),
        namespace: "default".to_owned(),
        target: "svc/api".to_owned(),
        remote_port: 8080,
        local_port: None,
    };
    let mut table = ForwardTable::new(&[forward]);
    let slot = match table.toggle("dev.api") {
        Toggled::Started(slot) => slot,
        Toggled::Stopped(_) => panic!("the route was not forwarded"),
    };
    table.set_port(slot, Some(49152));
    assert_eq!(table.status("dev.api"), RouteStatus::Ready(49152));

    let mut head = RequestHead::new();
    assert_eq!(head.push(&REQUEST[..20]), HeadProgress::Partial);
    assert_eq!(head.push(&REQUEST[20..]), HeadProgress::Complete);
    assert_eq!(head.bytes(), REQUEST);
    match route_request(&table, head.bytes()) {
        Some(ProxyAction::Connect { route, port }) => {
            assert_eq!(route, "dev.api");
            assert_eq!(port, 49152);
        }
        other => panic!("the request was not passed on: {:?}", other),
    }

    let mut stats = TransferStats::default();
    stats.record_sent(head.bytes().len() as u64);
    stats.record_received(RESPONSE.len() as u64);
    assert_eq!(
        stats.snapshot(),
        (REQUEST.len() as u64, RESPONSE.len() as u64)
    );
}

#[test]
fn uses_service_segment_in_menu_labels() {
    assert_eq!(service_name("staging.grafana"), "grafana");
}

#[test]
fn marks_active_services_without_checkbox_glyphs() {
    assert_eq!(service_label("usa.grafana", false), "grafana");
    assert_eq!(service_label("usa.grafana", true), "grafana (active)");
}

#[test]
fn shows_the_cluster_alias_before_the_kube_context() {
    let config = config(
        r#"{"clusters":{"usa":{"context":"arn:aws:eks:us-west-2:123:cluster/example"}}}"#,
    );
    assert_eq!(
        context_label(&config, "arn:aws:eks:us-west-2:123:cluster/example"),
        "usa (arn:aws:eks:us-west-2:123:cluster/example)"
    );
}

#[test]
fn formats_transfer_totals_in_megabytes() {
    let stats = TransferStats::default();
    let (sent, received) = stats.snapshot();
    let sent = format!("{:.2}", sent as f64 / 1_000_000.0);
    let received = format!("{:.2}", received as f64 / 1_000_000.0);
    assert_eq!(
        transfer_label(&sent, &received),
        "Sent: 0.00 MB | Received: 0.00 MB"
    );
}

#[test]
fn builds_the_active_forward_url() {
    assert_eq!(
        active_url("usa.clickstack-app", 1355),
        "http://usa.clickstack-app.localhost:1355"
    );
}
