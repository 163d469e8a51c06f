//! Settings of the engine and its services, their defaults and their overrides by
//! environment variables.
use vstd::prelude::*;
use vstd::string::*;
use crate::decimal::{decimal_field, parse_decimal, lemma_decimal_field_bound};

verus! {

/// All settings.
#[derive(Debug, Clone)]
pub struct AppConfig {
    pub minimax: MinimaxConfig,
    pub compute: ComputeConfig,
    pub api: ApiConfig,
    pub distributed: DistributedConfig,
}

/// Settings of the distributed search.
#[derive(Debug, Clone)]
pub struct DistributedConfig {
    pub enabled: bool,
    /// "gateway" or "worker"
    pub mode: String,
    pub redis_url: String,
    pub worker_dns: String,
    pub grpc_port: u16,
}

/// Settings of the minimax search.
#[derive(Debug, Clone)]
pub struct MinimaxConfig {
    pub depth: usize,
}

/// Time, threads and memory given to a search.
#[derive(Debug, Clone)]
pub struct ComputeConfig {
    pub minutes: u64,
    pub concurrency: usize,
    pub memory: usize,
}

/// Settings of the HTTP service.
#[derive(Debug, Clone)]
pub struct ApiConfig {
    pub port: u16,
}

impl Default for DistributedConfig {
    /// Disabled, standalone, local Redis, no worker service, gRPC port 50051.
    fn default() -> (r: Self)
        ensures
            !r.enabled,
            r.mode@ == "standalone"@,
            r.redis_url@ == "redis://127.0.0.1:6379"@,
            r.worker_dns@ == Seq::<char>::empty(),
            r.grpc_port == 50051,
    {
        DistributedConfig {
            enabled: false,
            mode: "standalone".to_owned(),
            redis_url: "redis://127.0.0.1:6379".to_owned(),
            worker_dns: String::new(),
            grpc_port: 50051,
        }
    }
}

impl Default for ComputeConfig {
    /// Two minutes, two threads, 1024 MB.
    fn default() -> (r: Self)
        ensures
            r.minutes == 2,
            r.concurrency == 2,
            r.memory == 1024,
    {
        ComputeConfig { minutes: 2, concurrency: 2, memory: 1024 }
    }
}

impl Default for ApiConfig {
    /// Port 3123.
    fn default() -> (r: Self)
        ensures
            r.port == 3123,
    {
        ApiConfig { port: 3123 }
    }
}

impl Default for MinimaxConfig {
    /// Depth 4.
    fn default() -> (r: Self)
        ensures
            r.depth == 4,
    {
        MinimaxConfig { depth: 4 }
    }
}

impl Default for AppConfig {
    /// The default of every part.
    fn default() -> (r: Self)
        ensures
            r.minimax.depth == 4,
            r.compute.minutes == 2,
            r.compute.concurrency == 2,
            r.compute.memory == 1024,
            r.api.port == 3123,
            !r.distributed.enabled,
            r.distributed.mode@ == "standalone"@,
            r.distributed.redis_url@ == "redis://127.0.0.1:6379"@,
            r.distributed.worker_dns@ == Seq::<char>::empty(),
            r.distributed.grpc_port == 50051,
    {
        AppConfig {
            minimax: MinimaxConfig::default(),
            compute: ComputeConfig::default(),
            api: ApiConfig::default(),
            distributed: DistributedConfig::default(),
        }
    }
}

/// The values of the overriding environment variables that are set: `HYPERCHESS_MINIMAX_DEPTH`,
/// `HYPERCHESS_COMPUTE_MEMORY`, `HYPERCHESS_COMPUTE_MINUTES`, `HYPERCHESS_COMPUTE_CONCURRENCY`,
/// `HYPERCHESS_API_PORT`, `HYPERCHESS_DISTRIBUTED_ENABLED`, `HYPERCHESS_MODE`,
/// `HYPERCHESS_REDIS_URL`, `HYPERCHESS_WORKER_DNS` and `HYPERCHESS_GRPC_PORT`.
pub struct EnvOverrides {
    pub minimax_depth: Option<String>,
    pub compute_memory: Option<String>,
    pub compute_minutes: Option<String>,
    pub compute_concurrency: Option<String>,
    pub api_port: Option<String>,
    pub distributed_enabled: Option<String>,
    pub mode: Option<String>,
    pub redis_url: Option<String>,
    pub worker_dns: Option<String>,
    pub grpc_port: Option<String>,
}

/// The number an override sets, or the current value when it is unset or not a number of
/// the field's range.
pub open spec fn number_override(v: Option<String>, max: nat, current: nat) -> nat {
    match v {
        Some(s) => match decimal_field(s@, max) {
            Some(n) => n,
            None => current,
        },
        None => current,
    }
}

/// The text an override sets, or the current text.
pub open spec fn text_override(v: Option<String>, current: Seq<char>) -> Seq<char> {
    match v {
        Some(s) => s@,
        None => current,
    }
}

/// Whether two strings hold the same characters.
fn same_text(a: &str, b: &str) -> (r: bool)
    ensures
        r == (a@ == b@),
{
    let n = a.unicode_len();
    if n != b.unicode_len() {
        return false;
    }
    let mut i: usize = 0;
    while i < n
        invariant
            i <= n,
            n == a@.len(),
            n == b@.len(),
            forall|k: int| 0 <= k < i ==> a@[k] == b@[k],
        decreases n - i,
    {
        if a.get_char(i) != b.get_char(i) {
            return false;
        }
        i += 1;
    }
    proof {
        assert(a@ =~= b@);
    }
    true
}

/// The number an override sets, if it is one of `0..=max`.
fn override_number(v: &Option<String>, max: u64) -> (r: Option<u64>)
    ensures
        r == match v {
            Some(s) => match decimal_field(s@, max as nat) {
                Some(n) => Some(n as u64),
                None => None::<u64>,
            },
            None => None::<u64>,
        },
        r matches Some(n) ==> n <= max,
{
    match v {
        Some(s) => parse_decimal(s.as_str(), max),
        None => None,
    }
}

impl AppConfig {
    /// Applies the set overrides: numbers that parse within the field's range replace the
    /// field; `HYPERCHESS_DISTRIBUTED_ENABLED` enables exactly when it is `true` or `1`; the
    /// texts replace theirs.
    pub fn merge_overrides(&mut self, env: &EnvOverrides)
        ensures
            final(self).minimax.depth == number_override(
                env.minimax_depth,
                usize::MAX as nat,
                old(self).minimax.depth as nat,
            ),
            final(self).compute.memory == number_override(
                env.compute_memory,
                usize::MAX as nat,
                old(self).compute.memory as nat,
            ),
            final(self).compute.minutes == number_override(
                env.compute_minutes,
                u64::MAX as nat,
                old(self).compute.minutes as nat,
            ),
            final(self).compute.concurrency == number_override(
                env.compute_concurrency,
                usize::MAX as nat,
                old(self).compute.concurrency as nat,
            ),
            final(self).api.port == number_override(env.api_port, 65535, old(self).api.port as nat),
            final(self).distributed.enabled == match env.distributed_enabled {
                Some(s) => s@ == "true"@ || s@ == "1"@,
                None => old(self).distributed.enabled,
            },
            final(self).distributed.mode@ == text_override(env.mode, old(self).distributed.mode@),
            final(self).distributed.redis_url@ == text_override(
                env.redis_url,
                old(self).distributed.redis_url@,
            ),
            final(self).distributed.worker_dns@ == text_override(
                env.worker_dns,
                old(self).distributed.worker_dns@,
            ),
            final(self).distributed.grpc_port == number_override(
                env.grpc_port,
                65535,
                old(self).distributed.grpc_port as nat,
            ),
    {
        proof {
            assert forall|t: Seq<char>, m: nat| #[trigger] decimal_field(t, m) matches Some(v) ==> v
                <= m by {
                lemma_decimal_field_bound(t, m);
            }
        }
        if let Some(v) = override_number(&env.minimax_depth, usize::MAX as u64) {
            self.minimax.depth = v as usize;
        }
        if let Some(v) = override_number(&env.compute_memory, usize::MAX as u64) {
            self.compute.memory = v as usize;
        }
        if let Some(v) = override_number(&env.compute_minutes, u64::MAX) {
            self.compute.minutes = v;
        }
        if let Some(v) = override_number(&env.compute_concurrency, usize::MAX as u64) {
            self.compute.concurrency = v as usize;
        }
        if let Some(v) = override_number(&env.api_port, 65535) {
            self.api.port = v as u16;
        }
        if let Some(val) = &env.distributed_enabled {
            self.distributed.enabled = same_text(val.as_str(), "true") || same_text(val.as_str(), "1");
        }
        if let Some(val) = &env.mode {
            self.distributed.mode = val.clone();
        }
        if let Some(val) = &env.redis_url {
            self.distributed.redis_url = val.clone();
        }
        if let Some(val) = &env.worker_dns {
            self.distributed.worker_dns = val.clone();
        }
        if let Some(v) = override_number(&env.grpc_port, 65535) {
            self.distributed.grpc_port = v as u16;
        }
    }
}

} // verus!
