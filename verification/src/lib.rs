//! Named local routes for Kubernetes port forwards.

pub mod config;
pub mod error;
pub mod example;
pub mod forward;
pub mod forwards;
pub mod kube;
pub mod labels;
pub mod laws;
pub mod location;
pub mod order;
pub mod proxy;
pub mod route;
pub mod service;
pub mod stats;
pub mod table;
pub mod text;
pub mod tray;
pub mod validate;

pub use config::{Cluster, Clusters, Config, ContextsConfig, ForwardSpec, ProxyConfig, Service};
pub use config::{default_proxy_port, DEFAULT_PROXY_PORT};
pub use error::ConfigError;
pub use example::EXAMPLE_CONFIG;
pub use route::{browser_host, canonical_route, parse_forwarded_port, route_name};
pub use stats::TransferStats;
