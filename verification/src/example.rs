//! The configuration that is written for a start.

use vstd::prelude::*;

verus! {

/// A configuration to start from.
pub const EXAMPLE_CONFIG: &'static str = "{
  \"$schema\": \"./konnect.config.schema.json\",
  \"proxy\": {
    \"port\": 1355
  },
  \"contexts\": {
    \"ignore\": [\"docker-desktop\"]
  },
  \"clusters\": {
    \"all\": {
      \"service\": [
        {
          \"name\": \"grafana\",
          \"namespace\": \"observability\",
          \"service\": \"grafana\",
          \"remote_port\": 3000
        }
      ]
    },
    \"usa\": {
      \"context\": \"my-usa-kube-context\",
      \"service\": [
        {
          \"name\": \"postgres\",
          \"namespace\": \"default\",
          \"target\": \"svc/postgres\",
          \"remote_port\": 5432,
          \"local_port\": 15432
        }
      ]
    }
  }
}
";

} // verus!
