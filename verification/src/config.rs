//! The model of `config.toml`. `defaults` and each `namespaces.<name>` share the type
//! [`NamespaceConfig`]; a namespace section takes from `defaults` each setting it leaves out
//! (see [`inherit`]), and a channel whose namespace has no section of its own uses `defaults`.
//! Reading the file and decoding TOML happen outside the library; `${VAR}` expansion is
//! [`crate::env::expand_env`].

use vstd::prelude::*;
use crate::strmap::StrMap;
use crate::text::{split_on, split_segments, colon, views};

verus! {

#[derive(Debug)]
pub struct Config {
    pub server: Server,
    pub redis: Redis,
    pub auth: Auth,
    pub api_keys: Vec<ApiKey>,
    pub defaults: NamespaceConfig,
    pub namespaces: StrMap<NamespaceConfig>,
    pub limits: Limits,
    pub shutdown: Shutdown,
    pub events: Events,
    pub telemetry: Telemetry,
    pub strict_namespaces: bool,
}

#[derive(Debug)]
pub struct Server {
    pub node_name: String,
    pub log_level: String,
    pub ws: WsConfig,
    pub sse: SseConfig,
    pub http_api: Listen,
    pub grpc_api: Listen,
    pub admin: AdminConfig,
    pub health: Listen,
    pub security: Security,
    pub conn_limits: ConnLimits,
    pub tls: Tls,
}

#[derive(Debug)]
pub struct Listen {
    pub listen: String,
    pub path: Option<String>,
}

/// The WebSocket listener. `ping_interval_ms` is the configured ping interval in milliseconds.
#[derive(Debug)]
pub struct WsConfig {
    pub listen: String,
    pub path: String,
    pub max_message_size: String,
    pub ping_interval_ms: u64,
}

#[derive(Debug)]
pub struct SseConfig {
    pub enabled: bool,
    pub path: String,
    pub emit_path: String,
}

#[derive(Debug)]
pub struct AdminConfig {
    pub listen: String,
    pub enabled: bool,
    pub auth: AdminAuthKind,
    pub password: String,
}

#[derive(Debug, Clone, Copy, PartialEq, Eq)]
pub enum AdminAuthKind {
    Password,
    Oidc,
}

impl Default for AdminAuthKind {
    fn default() -> (r: Self)
        ensures
            r == AdminAuthKind::Password,
    {
        AdminAuthKind::Password
    }
}

#[derive(Debug)]
pub struct Security {
    pub allowed_origins: Vec<String>,
    pub cors_allowed_origins: Vec<String>,
    pub cors_allow_credentials: bool,
    pub trusted_proxies: Vec<String>,
    pub ip_allow: Vec<String>,
    pub ip_deny: Vec<String>,
}

#[derive(Debug)]
pub struct ConnLimits {
    pub max_connections: u32,
    pub max_connections_per_ip: u32,
    pub max_connections_per_user: u32,
    pub require_subprotocol: bool,
}

#[derive(Debug)]
pub struct Tls {
    pub enabled: bool,
    pub cert_path: String,
    pub key_path: String,
}

#[derive(Debug)]
pub struct Redis {
    pub url: String,
    pub prefix: String,
    pub idempotency_ttl: Option<String>,
    /// true: multi-node through Redis; false: a single node with the in-memory broker.
    pub enabled: bool,
}

#[derive(Debug)]
pub struct Auth {
    pub jwt: Jwt,
}

#[derive(Debug)]
pub struct Jwt {
    pub algorithm: String,
    pub hmac_secret: Option<String>,
    pub jwks_url: Option<String>,
    pub audience: Option<String>,
    pub channels_claim: String,
}

#[derive(Debug)]
pub struct ApiKey {
    pub key: String,
    pub allow: Vec<String>,
}

/// Per-namespace policy (also used for `defaults`).
#[derive(Debug, Clone)]
pub struct NamespaceConfig {
    pub access: Access,
    pub presence: bool,
    pub join_leave: bool,
    pub history_size: usize,
    pub history_ttl: Option<String>,
    pub max_subscribers: u32,
    pub name_max_len: Option<usize>,
    pub rate_limit: Option<RateLimit>,
}

impl Default for NamespaceConfig {
    fn default() -> (r: Self)
        ensures
            r.access == Access::spec_default(),
            !r.presence,
            !r.join_leave,
            r.history_size == 0,
            r.history_ttl is None,
            r.max_subscribers == 0,
            r.name_max_len is None,
            r.rate_limit is None,
    {
        NamespaceConfig {
            access: Access::default(),
            presence: false,
            join_leave: false,
            history_size: 0,
            history_ttl: None,
            max_subscribers: 0,
            name_max_len: None,
            rate_limit: None,
        }
    }
}

/// Per-action access modes of a namespace.
#[derive(Debug, Clone, Copy, PartialEq, Eq)]
pub struct Access {
    pub subscribe: AccessMode,
    pub publish: AccessMode,
    pub presence: AccessMode,
    pub history: AccessMode,
}

impl Access {
    /// Subscribe, presence and history need a token; clients may not publish.
    pub open spec fn spec_default() -> Access {
        Access {
            subscribe: AccessMode::Token,
            publish: AccessMode::Off,
            presence: AccessMode::Token,
            history: AccessMode::Token,
        }
    }
}

impl Default for Access {
    fn default() -> (r: Self)
        ensures
            r == Access::spec_default(),
    {
        Access {
            subscribe: AccessMode::Token,
            publish: AccessMode::Off,
            presence: AccessMode::Token,
            history: AccessMode::Token,
        }
    }
}

/// The access modes a namespace section sets; one it leaves out is none.
#[derive(Debug)]
pub struct AccessOverrides {
    pub subscribe: Option<AccessMode>,
    pub publish: Option<AccessMode>,
    pub presence: Option<AccessMode>,
    pub history: Option<AccessMode>,
}

/// The settings a `namespaces.<name>` section sets; one it leaves out is none.
#[derive(Debug)]
pub struct NamespaceOverrides {
    pub access: AccessOverrides,
    pub presence: Option<bool>,
    pub join_leave: Option<bool>,
    pub history_size: Option<usize>,
    pub history_ttl: Option<String>,
    pub max_subscribers: Option<u32>,
    pub name_max_len: Option<usize>,
    pub rate_limit: Option<RateLimit>,
}

/// The setting `o` where it is given, else `d`.
pub open spec fn set_or<T>(o: Option<T>, d: T) -> T {
    match o {
        Some(v) => v,
        None => d,
    }
}

/// An optional setting `o` where it is given, else `d`.
pub open spec fn set_or_opt<T>(o: Option<T>, d: Option<T>) -> Option<T> {
    match o {
        Some(v) => Some(v),
        None => d,
    }
}

pub open spec fn text_opt_view(o: Option<String>) -> Option<Seq<char>> {
    match o {
        Some(t) => Some(t@),
        None => None,
    }
}

/// The policy of a namespace section: each setting it leaves out is the one of `defaults`.
pub fn inherit(defaults: &NamespaceConfig, o: &NamespaceOverrides) -> (n: NamespaceConfig)
    ensures
        n.access == (Access {
            subscribe: set_or(o.access.subscribe, defaults.access.subscribe),
            publish: set_or(o.access.publish, defaults.access.publish),
            presence: set_or(o.access.presence, defaults.access.presence),
            history: set_or(o.access.history, defaults.access.history),
        }),
        n.presence == set_or(o.presence, defaults.presence),
        n.join_leave == set_or(o.join_leave, defaults.join_leave),
        n.history_size == set_or(o.history_size, defaults.history_size),
        text_opt_view(n.history_ttl) == set_or_opt(text_opt_view(o.history_ttl), text_opt_view(defaults.history_ttl)),
        n.max_subscribers == set_or(o.max_subscribers, defaults.max_subscribers),
        n.name_max_len == set_or_opt(o.name_max_len, defaults.name_max_len),
        n.rate_limit == set_or_opt(o.rate_limit, defaults.rate_limit),
{
    let access = Access {
        subscribe: match o.access.subscribe {
            Some(m) => m,
            None => defaults.access.subscribe,
        },
        publish: match o.access.publish {
            Some(m) => m,
            None => defaults.access.publish,
        },
        presence: match o.access.presence {
            Some(m) => m,
            None => defaults.access.presence,
        },
        history: match o.access.history {
            Some(m) => m,
            None => defaults.access.history,
        },
    };
    let history_ttl = match &o.history_ttl {
        Some(t) => Some(t.clone()),
        None => match &defaults.history_ttl {
            Some(t) => Some(t.clone()),
            None => None,
        },
    };
    NamespaceConfig {
        access,
        presence: match o.presence {
            Some(b) => b,
            None => defaults.presence,
        },
        join_leave: match o.join_leave {
            Some(b) => b,
            None => defaults.join_leave,
        },
        history_size: match o.history_size {
            Some(v) => v,
            None => defaults.history_size,
        },
        history_ttl,
        max_subscribers: match o.max_subscribers {
            Some(v) => v,
            None => defaults.max_subscribers,
        },
        name_max_len: match o.name_max_len {
            Some(v) => Some(v),
            None => defaults.name_max_len,
        },
        rate_limit: match o.rate_limit {
            Some(r) => Some(r),
            None => defaults.rate_limit,
        },
    }
}

/// Who may perform an action: nobody (`Off`), anybody (`Public`), or holders of a matching
/// token grant (`Token`).
#[derive(Debug, Clone, Copy, PartialEq, Eq)]
pub enum AccessMode {
    Off,
    Public,
    Token,
}

impl Default for AccessMode {
    fn default() -> (r: Self)
        ensures
            r == AccessMode::Token,
    {
        AccessMode::Token
    }
}

#[derive(Debug, Clone, Copy, PartialEq, Eq)]
pub struct RateLimit {
    pub publish: Option<Bucket>,
    pub subscribe: Option<Bucket>,
}

#[derive(Debug, Clone, Copy, PartialEq, Eq)]
pub struct Bucket {
    pub rate: u32,
    pub burst: u32,
    pub scope: BucketScope,
}

#[derive(Debug, Clone, Copy, PartialEq, Eq)]
pub enum BucketScope {
    Client,
    Channel,
    User,
}

impl Default for BucketScope {
    fn default() -> (r: Self)
        ensures
            r == BucketScope::Client,
    {
        BucketScope::Client
    }
}

#[derive(Debug)]
pub struct Limits {
    pub max_channels_per_connection: u32,
    pub max_commands_per_second: u32,
}

#[derive(Debug)]
pub struct Shutdown {
    pub drain_timeout: Option<String>,
    pub reconnect_advice: bool,
}

#[derive(Debug)]
pub struct Events {
    pub enabled: bool,
    pub endpoint: String,
    pub types: Vec<String>,
    pub transport: Option<String>,
}

#[derive(Debug)]
pub struct Telemetry {
    pub log_format: Option<String>,
    pub tracing_enabled: bool,
    pub otlp_endpoint: Option<String>,
}

/// The default of `strict_namespaces` and `shutdown.reconnect_advice`.
pub fn default_true() -> (b: bool)
    ensures
        b,
{
    true
}

/// The default of `server.log_level`.
pub fn default_log_level() -> (s: String)
    ensures
        s@ == seq!['i', 'n', 'f', 'o'],
{
    proof {
        reveal_strlit("info");
    }
    let s = String::from_str("info");
    assert(s@ =~= seq!['i', 'n', 'f', 'o']);
    s
}

/// The default of `redis.prefix`.
pub fn default_prefix() -> (s: String)
    ensures
        s@ == seq!['s', 'o', 'c', 'k', 'e', 't'],
{
    proof {
        reveal_strlit("socket");
    }
    let s = String::from_str("socket");
    assert(s@ =~= seq!['s', 'o', 'c', 'k', 'e', 't']);
    s
}

/// The default of `auth.jwt.channels_claim`.
pub fn default_channels_claim() -> (s: String)
    ensures
        s@ == seq!['c', 'h', 'a', 'n', 'n', 'e', 'l', 's'],
{
    proof {
        reveal_strlit("channels");
    }
    let s = String::from_str("channels");
    assert(s@ =~= seq!['c', 'h', 'a', 'n', 'n', 'e', 'l', 's']);
    s
}

/// The namespace of a channel: its first `:` segment (`chat:room:42` is in `chat`).
pub open spec fn namespace_of(channel: Seq<char>) -> Seq<char> {
    split_on(channel, colon())[0]
}

/// The namespace of `channel`.
pub fn channel_namespace(channel: &str) -> (ns: String)
    ensures
        ns@ == namespace_of(channel@),
{
    let mut segs = split_segments(channel);
    proof {
        crate::text::lemma_split_nonempty(channel@, colon());
        assert(views(segs@)[0] == segs@[0]@);
    }
    segs.swap_remove(0)
}

impl Config {
    /// The policy of the namespace of `channel` as a spec value.
    pub open spec fn spec_namespace(&self, channel: Seq<char>) -> NamespaceConfig {
        if self.namespaces@.dom().contains(namespace_of(channel)) {
            self.namespaces@[namespace_of(channel)]
        } else {
            self.defaults
        }
    }

    /// The effective policy of a channel: its namespace's section, or `defaults` when the
    /// namespace has none.
    pub fn namespace(&self, channel: &str) -> (ns: &NamespaceConfig)
        ensures
            *ns == self.spec_namespace(channel@),
    {
        let name = channel_namespace(channel);
        match self.namespaces.get(name.as_str()) {
            Some(ns) => ns,
            None => &self.defaults,
        }
    }
}

} // verus!
