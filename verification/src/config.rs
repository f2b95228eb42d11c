//! The repository-local `.camp.toml` configuration and its defaults.
use vstd::prelude::*;

use crate::text::{append_str, from_chars, to_chars};

verus! {

/// The CAMP service type used when the configuration names none.
pub const DEFAULT_SERVICE_TYPE: &'static str = "_camp._tcp.local.";

/// How long a one-shot mDNS discovery listens, when not configured.
pub const DEFAULT_DISCOVERY_TIMEOUT_MS: u64 = 250;

/// How long a checkout waits after publishing its claim, when not configured.
pub const DEFAULT_CLAIM_SETTLE_MS: u64 = 150;

/// The whole `.camp.toml` file.
#[derive(Debug)]
pub struct CampConfig {
    pub agent: AgentConfig,
    pub discovery: DiscoveryConfig,
}

/// The `[agent]` table: who the local agent is and where it works.
#[derive(Debug)]
pub struct AgentConfig {
    pub id: String,
    pub project: String,
    pub branch: String,
    pub role: Option<String>,
    pub port: Option<u16>,
    pub status: Option<String>,
}

/// The `[discovery]` table; every entry is optional.
#[derive(Debug)]
pub struct DiscoveryConfig {
    pub service_type: Option<String>,
    pub mdns_port: Option<u16>,
    pub heartbeat_ms: Option<u64>,
    pub ttl_ms: Option<u64>,
    pub shared_secret_mode: Option<String>,
    pub discovery_timeout_ms: Option<u64>,
    pub claim_settle_ms: Option<u64>,
    pub camp_rest_url: Option<String>,
}

impl Default for DiscoveryConfig {
    fn default() -> (d: Self)
        ensures
            d.service_type is None,
            d.mdns_port is None,
            d.heartbeat_ms is None,
            d.ttl_ms is None,
            d.shared_secret_mode is None,
            d.discovery_timeout_ms is None,
            d.claim_settle_ms is None,
            d.camp_rest_url is None,
    {
        DiscoveryConfig {
            service_type: None,
            mdns_port: None,
            heartbeat_ms: None,
            ttl_ms: None,
            shared_secret_mode: None,
            discovery_timeout_ms: None,
            claim_settle_ms: None,
            camp_rest_url: None,
        }
    }
}

pub open spec fn default_service_type() -> Seq<char> {
    "_camp._tcp.local."@
}

impl CampConfig {
    /// The configured service type, or `_camp._tcp.local.`.
    pub fn service_type(&self) -> (r: &str)
        ensures
            r@ == (match self.discovery.service_type {
                Some(t) => t@,
                None => default_service_type(),
            }),
    {
        match &self.discovery.service_type {
            Some(t) => t.as_str(),
            None => DEFAULT_SERVICE_TYPE,
        }
    }

    /// The configured discovery timeout, or 250 ms.
    pub fn discovery_timeout_ms(&self) -> (r: u64)
        ensures
            r == (match self.discovery.discovery_timeout_ms {
                Some(t) => t,
                None => DEFAULT_DISCOVERY_TIMEOUT_MS,
            }),
    {
        match self.discovery.discovery_timeout_ms {
            Some(t) => t,
            None => DEFAULT_DISCOVERY_TIMEOUT_MS,
        }
    }

    /// The configured mDNS port, if any.
    pub fn mdns_port(&self) -> (r: Option<u16>)
        ensures
            r == self.discovery.mdns_port,
    {
        self.discovery.mdns_port
    }

    /// The configured claim settle window, or 150 ms.
    pub fn claim_settle_ms(&self) -> (r: u64)
        ensures
            r == (match self.discovery.claim_settle_ms {
                Some(t) => t,
                None => DEFAULT_CLAIM_SETTLE_MS,
            }),
    {
        match self.discovery.claim_settle_ms {
            Some(t) => t,
            None => DEFAULT_CLAIM_SETTLE_MS,
        }
    }

    /// The configured URL of a local CAMP REST bridge, if any.
    pub fn camp_rest_url(&self) -> (r: Option<&str>)
        ensures
            r matches Some(u) ==> self.discovery.camp_rest_url matches Some(c) && u@ == c@,
            r is None ==> self.discovery.camp_rest_url is None,
    {
        match &self.discovery.camp_rest_url {
            Some(u) => Some(u.as_str()),
            None => None,
        }
    }
}

/// `p` is an absolute path.
pub open spec fn is_absolute_path(p: Seq<char>) -> bool {
    p.len() > 0 && p[0] == '/'
}

/// `base` joined with `p` the way `Path::join` does on Unix: an absolute `p`
/// replaces `base`; otherwise `p` follows `base`, after a `/` unless `base`
/// is empty or already ends with one.
pub open spec fn joined_path(base: Seq<char>, p: Seq<char>) -> Seq<char> {
    if is_absolute_path(p) {
        p
    } else if base.len() == 0 || base.last() == '/' {
        base + p
    } else {
        base + seq!['/'] + p
    }
}

/// `base` joined with `p` (see `joined_path`).
pub fn join_path(base: &str, p: &str) -> (res: String)
    ensures
        res@ == joined_path(base@, p@),
{
    let b = to_chars(base);
    let q = to_chars(p);
    if q.len() > 0 && q[0] == '/' {
        return from_chars(&q);
    }
    let mut out = to_chars(base);
    if !(b.len() == 0 || b[b.len() - 1] == '/') {
        out.push('/');
    }
    append_str(&mut out, p);
    assert(out@ =~= joined_path(base@, p@));
    from_chars(&out)
}

/// Where the configuration file is: `config` itself when absolute, otherwise
/// relative to the repository root.
pub fn resolve_config_path(repo_root: &str, config: &str) -> (res: String)
    ensures
        res@ == (if is_absolute_path(config@) {
            config@
        } else {
            joined_path(repo_root@, config@)
        }),
{
    let c = to_chars(config);
    if c.len() > 0 && c[0] == '/' {
        from_chars(&c)
    } else {
        join_path(repo_root, config)
    }
}

} // verus!
