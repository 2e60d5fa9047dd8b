use konnect::service::{forward_spec, validate_label, validate_services};
use konnect::{
    default_proxy_port, Cluster, Clusters, Config, ConfigError, ContextsConfig, ProxyConfig,
    Service, DEFAULT_PROXY_PORT,
};

fn service(name: &str, target: &str) -> Service {
    Service {
        name: Some(name.to_owned()),
        namespace: "default".to_owned(),
        remote_port: 8080,
        local_port: None,
        target: Some(target.to_owned()),
        service: None,
        pod: None,
    }
}

fn cluster(context: &str, services: Vec<Service>) -> Cluster {
    Cluster {
        context: Some(context.to_owned()),
        services,
    }
}

fn config(clusters: Vec<(&str, Cluster)>) -> Config {
    let mut config = Config::default();
    for (name, cluster) in clusters {
        config.clusters.insert(name.to_owned(), cluster);
    }
    config
}

fn refusal(clusters: Vec<(&str, Cluster)>) -> String {
    config(clusters).validate().unwrap_err().message()
}

#[test]
fn defaults_are_empty_but_for_the_port() {
    let config = Config::default();
    assert_eq!(config.proxy.port, 1355);
    assert_eq!(DEFAULT_PROXY_PORT, default_proxy_port());
    assert!(config.schema.is_none());
    assert!(config.contexts.ignore.is_empty());
    assert_eq!(config.clusters.len(), 0);
    assert_eq!(ProxyConfig::default().port, 1355);
    assert!(ContextsConfig::default().ignore.is_empty());
    assert!(Cluster::default().context.is_none());
    config.validate().unwrap();
}

#[test]
fn clusters_stand_by_rising_name_and_each_once() {
    let mut clusters = Clusters::new();
    for name in ["usa", "all", "zoo", "china", "dev", "b", "é", "z"] {
        assert!(clusters
            .insert(name.to_owned(), cluster("first", vec![]))
            .is_none());
    }
    let replaced = clusters.insert("dev".to_owned(), cluster("second", vec![]));
    assert_eq!(replaced.unwrap().context.unwrap(), "first");
    let names: Vec<&str> = (0..clusters.len()).map(|i| clusters.name_at(i)).collect();
    let mut expected = vec!["usa", "all", "zoo", "china", "dev", "b", "é", "z"];
    expected.sort();
    assert_eq!(names, expected);
    assert_eq!(
        clusters.get("dev").unwrap().context.as_deref(),
        Some("second")
    );
    assert_eq!(
        clusters.get("usa").unwrap().context.as_deref(),
        Some("first")
    );
    assert!(clusters.get("us").is_none());
    assert_eq!(clusters.cluster_at(0).context.as_deref(), Some("first"));
}

#[test]
fn refuses_a_proxy_on_port_zero() {
    let mut config = Config::default();
    config.proxy.port = 0;
    assert!(matches!(config.validate(), Err(ConfigError::ProxyPort)));
    assert_eq!(
        config.validate().unwrap_err().message(),
        "proxy.port must be between 1 and 65535"
    );
}

#[test]
fn refuses_shared_services_with_a_context_or_a_local_port() {
    assert_eq!(
        refusal(vec![("all", cluster("kind-dev", vec![]))]),
        "clusters.all must not define a context"
    );
    let mut shared = service("postgres", "svc/postgres");
    shared.local_port = Some(15432);
    assert_eq!(
        refusal(vec![(
            "all",
            Cluster {
                context: None,
                services: vec![service("api", "svc/api"), shared],
            }
        )]),
        "clusters.all must not define a local_port"
    );
}

#[test]
fn accepts_a_local_port_in_a_cluster() {
    let mut own = service("usa-postgres", "svc/postgres");
    own.namespace = "namespace".to_owned();
    own.remote_port = 5432;
    own.local_port = Some(15432);
    let config = config(vec![("usa", cluster("my-usa-kube-context", vec![own]))]);
    config.validate().unwrap();
    let forwards = config.forwards_for_context("my-usa-kube-context").unwrap();
    assert_eq!(forwards[0].route, "usa.usa-postgres");
    assert_eq!(forwards[0].namespace, "namespace");
    assert_eq!(forwards[0].target, "svc/postgres");
    assert_eq!(forwards[0].remote_port, 5432);
    assert_eq!(forwards[0].local_port, Some(15432));
}

#[test]
fn refuses_clusters_that_are_not_labels_or_name_no_context() {
    assert_eq!(
        refusal(vec![("Dev", cluster("kind-dev", vec![]))]),
        "cluster key must be a lowercase DNS label (letters, numbers, and hyphens)"
    );
    assert_eq!(
        refusal(vec![("dev", Cluster::default())]),
        "clusters.dev must define a context"
    );
    assert_eq!(
        refusal(vec![("dev", cluster(" \t\u{3000}", vec![]))]),
        "clusters.dev has an empty context"
    );
}

#[test]
fn refuses_services_for_the_first_thing_that_is_wrong() {
    let mut bad = service("api", "svc/api");
    bad.namespace = " ".to_owned();
    bad.remote_port = 0;
    assert_eq!(
        refusal(vec![("dev", cluster("kind-dev", vec![bad]))]),
        "clusters.dev service api has an empty namespace"
    );
    let mut bad = service("api", "svc/api");
    bad.remote_port = 0;
    assert_eq!(
        refusal(vec![("dev", cluster("kind-dev", vec![bad]))]),
        "clusters.dev service api has an invalid remote_port"
    );
    assert_eq!(
        refusal(vec![(
            "dev",
            cluster(
                "kind-dev",
                vec![service("api", "svc/api"), service("api", "svc/other")]
            )
        )]),
        "clusters.dev defines service api more than once"
    );
    assert_eq!(
        refusal(vec![("dev", cluster("kind-dev", vec![service("-api", "svc/api")]))]),
        "service name must be a lowercase DNS label (letters, numbers, and hyphens)"
    );
}

#[test]
fn refuses_targets_that_are_blank_or_not_exactly_one() {
    let message = |s: Service| s.target_name().unwrap_err().message();
    let mut s = service("api", " ");
    assert_eq!(message(s), "service has an empty target");
    s = service("api", "svc/api");
    s.target = None;
    assert_eq!(
        message(s),
        "service must define exactly one of target, service, or pod"
    );
    s = service("api", "svc/api");
    s.target = None;
    s.service = Some("".to_owned());
    assert_eq!(message(s), "service has an empty service target");
    s = service("api", "svc/api");
    s.target = None;
    s.pod = Some("\n".to_owned());
    assert_eq!(message(s), "service has an empty pod target");
}

#[test]
fn takes_names_from_targets_or_says_why_not() {
    let mut s = service("api", "deployment/team/api");
    assert_eq!(s.route_name().unwrap(), "api");
    s.name = None;
    assert_eq!(s.route_name().unwrap(), "api");
    s.target = Some("grafana".to_owned());
    assert_eq!(
        s.route_name().unwrap_err().message(),
        "target \"grafana\" must include a resource name; set service.name explicitly"
    );
    s.target = Some("svc/".to_owned());
    assert_eq!(
        s.route_name().unwrap_err().message(),
        "target \"svc/\" has an empty resource name"
    );
    s.target = Some("a \"b\"\\".to_owned());
    assert_eq!(
        s.route_name().unwrap_err().message(),
        "target \"a \\\"b\\\"\\\\\" must include a resource name; set service.name explicitly"
    );
    assert_eq!(
        s.route_name().unwrap_err().message_quoting("<t>", ""),
        "target <t> must include a resource name; set service.name explicitly"
    );
}

#[test]
fn labels_are_lowercase_and_of_limited_length() {
    let long = "a".repeat(63);
    for good in ["a", "0", "a-b", "us-west-2", long.as_str()] {
        validate_label("field", good).unwrap();
    }
    let longer = "a".repeat(64);
    for bad in ["", "-a", "a-", "A", "a.b", "a_b", "é", " a", longer.as_str()] {
        assert_eq!(
            validate_label("field", bad).unwrap_err().message(),
            "field must be a lowercase DNS label (letters, numbers, and hyphens)"
        );
    }
}

#[test]
fn services_are_validated_in_their_scope() {
    validate_services("scope", &vec![service("a", "svc/a"), service("b", "svc/b")]).unwrap();
    let mut bad = service("b", "svc/b");
    bad.namespace = "".to_owned();
    assert_eq!(
        validate_services("scope", &vec![service("a", "svc/a"), bad])
            .unwrap_err()
            .message(),
        "scope service b has an empty namespace"
    );
}

#[test]
fn forwards_carry_what_kubectl_needs() {
    let forward = forward_spec("dev", "kind-dev", &service("api", "svc/api")).unwrap();
    assert_eq!(forward.route, "dev.api");
    assert_eq!(forward.context, "kind-dev");
    assert_eq!(forward.namespace, "default");
    assert_eq!(forward.target, "svc/api");
    assert_eq!(forward.remote_port, 8080);
    assert_eq!(forward.local_port, None);
    assert_eq!(forward.clone().route, "dev.api");
}

#[test]
fn valid_configurations_never_collide() {
    let shared = Cluster {
        context: None,
        services: vec![service("api", "svc/api"), service("metrics", "svc/metrics")],
    };
    let mut config = config(vec![
        ("all", shared),
        ("usa", cluster("ctx-usa", vec![service("api", "pod/api")])),
        ("china", cluster("ctx-china", vec![service("db", "svc/db")])),
        ("test", cluster("ctx-test", vec![])),
    ]);
    config.contexts.ignore.push("ctx-test".to_owned());
    config.validate().unwrap();
    let contexts: Vec<String> = ["ctx-usa", "ctx-test", "elsewhere", "ctx-china"]
        .iter()
        .map(|s| s.to_string())
        .collect();
    let routes: Vec<String> = config
        .forwards_for_contexts(&contexts)
        .unwrap()
        .into_iter()
        .map(|f| f.route)
        .collect();
    assert_eq!(
        routes,
        vec!["usa.api", "usa.metrics", "china.api", "china.metrics", "china.db"]
    );
}

#[test]
fn a_context_that_is_listed_twice_collides() {
    let config = config(vec![(
        "dev",
        cluster("kind-dev", vec![service("api", "svc/api")]),
    )]);
    let contexts = vec!["kind-dev".to_owned(), "kind-dev".to_owned()];
    let error = config.forwards_for_contexts(&contexts).unwrap_err();
    assert!(matches!(error, ConfigError::DuplicateRoute { .. }));
    assert_eq!(
        error.message(),
        "contexts \"kind-dev\" and \"kind-dev\" produce the same route dev.api"
    );
}

#[test]
fn the_last_of_several_overrides_wins() {
    let config = config(vec![
        (
            "all",
            Cluster {
                context: None,
                services: vec![service("api", "svc/api")],
            },
        ),
        (
            "dev",
            cluster(
                "kind-dev",
                vec![service("api", "svc/one"), service("api", "svc/two")],
            ),
        ),
    ]);
    let forwards = config.forwards_for_context("kind-dev").unwrap();
    assert_eq!(forwards.len(), 1);
    assert_eq!(forwards[0].target, "svc/two");
}

#[test]
fn the_first_cluster_of_a_context_serves_it() {
    let config = config(vec![
        ("b", cluster("same", vec![])),
        ("a", cluster("same", vec![])),
    ]);
    assert_eq!(config.cluster_name_for_context("same"), Some("a"));
}

#[test]
fn unusable_services_leave_no_forwards() {
    let mut broken = service("api", "svc/api");
    broken.target = None;
    let config = config(vec![("dev", cluster("kind-dev", vec![broken]))]);
    assert!(matches!(
        config.forwards_for_context("kind-dev"),
        Err(ConfigError::TargetCount)
    ));
}
