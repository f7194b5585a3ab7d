//! Access decisions: the namespace decides whether an action is open, closed, or needs a token;
//! the token's grants give the right to a particular user.

use vstd::prelude::*;
use crate::auth::{Claims, ClaimsModel, claims_allow};
use crate::config::{AccessMode, Access, Config, namespace_of, channel_namespace};

verus! {

/// A client action on a channel.
#[derive(Debug, Clone, Copy, PartialEq, Eq)]
pub enum Action {
    Subscribe,
    Publish,
    Presence,
    History,
}

/// The name of an action's right in a token grant.
pub open spec fn allow_key_spec(a: Action) -> Seq<char> {
    match a {
        Action::Subscribe => "sub"@,
        Action::Publish => "pub"@,
        Action::Presence => "presence"@,
        Action::History => "history"@,
    }
}

impl Action {
    /// The name of the right in `allow` of a token grant.
    pub fn allow_key(self) -> (s: &'static str)
        ensures
            s@ == allow_key_spec(self),
    {
        match self {
            Action::Subscribe => "sub",
            Action::Publish => "pub",
            Action::Presence => "presence",
            Action::History => "history",
        }
    }
}

/// The outcome of an access check; a denial carries its reason.
#[derive(Debug)]
pub enum Decision {
    Allow,
    Deny(&'static str),
}

/// `None` for `Allow`, the reason for `Deny`.
pub open spec fn decision_reason(d: Decision) -> Option<Seq<char>> {
    match d {
        Decision::Allow => None,
        Decision::Deny(r) => Some(r@),
    }
}

/// The mode of `action` in `access`.
pub open spec fn action_mode(access: Access, action: Action) -> AccessMode {
    match action {
        Action::Subscribe => access.subscribe,
        Action::Publish => access.publish,
        Action::Presence => access.presence,
        Action::History => access.history,
    }
}

/// The decision chain: unknown namespace (when strict), then the namespace gate, then the grants.
/// `None` allows; `Some(reason)` denies.
pub open spec fn check_spec(
    cfg: Config,
    claims: Option<ClaimsModel>,
    channel: Seq<char>,
    action: Action,
) -> Option<Seq<char>> {
    if cfg.strict_namespaces && !cfg.namespaces@.dom().contains(namespace_of(channel)) {
        Some("unknown_namespace"@)
    } else {
        match action_mode(cfg.spec_namespace(channel).access, action) {
            AccessMode::Off => Some("action_off"@),
            AccessMode::Public => None,
            AccessMode::Token => match claims {
                Some(c) => if claims_allow(c, channel, allow_key_spec(action)) {
                    None
                } else {
                    Some("not_permitted"@)
                },
                None => Some("token_required"@),
            },
        }
    }
}

pub open spec fn claims_view(c: Option<&Claims>) -> Option<ClaimsModel> {
    match c {
        Some(c) => Some(c@),
        None => None,
    }
}

/// Checks `action` on `channel` for a client with `claims` (none: no token).
pub fn check(cfg: &Config, claims: Option<&Claims>, channel: &str, action: Action) -> (d: Decision)
    ensures
        decision_reason(d) == check_spec(*cfg, claims_view(claims), channel@, action),
{
    let ns_name = channel_namespace(channel);
    if cfg.strict_namespaces && !cfg.namespaces.contains_key(ns_name.as_str()) {
        return Decision::Deny("unknown_namespace");
    }
    let ns = cfg.namespace(channel);
    let mode = match action {
        Action::Subscribe => ns.access.subscribe,
        Action::Publish => ns.access.publish,
        Action::Presence => ns.access.presence,
        Action::History => ns.access.history,
    };
    match mode {
        AccessMode::Off => Decision::Deny("action_off"),
        AccessMode::Public => Decision::Allow,
        AccessMode::Token => match claims {
            Some(c) => {
                if c.allows(channel, action.allow_key()) {
                    Decision::Allow
                } else {
                    Decision::Deny("not_permitted")
                }
            },
            None => Decision::Deny("token_required"),
        },
    }
}

/// The namespace decides first: past the namespace check, an `off` action is denied whatever the
/// token grants, a `public` one is allowed without any token, and a `token` one is allowed exactly
/// when some grant of the token matches the channel with the action's right.
pub proof fn lemma_gate(cfg: Config, claims: Option<ClaimsModel>, channel: Seq<char>, action: Action)
    requires
        !cfg.strict_namespaces || cfg.namespaces@.dom().contains(namespace_of(channel)),
    ensures
        action_mode(cfg.spec_namespace(channel).access, action) == AccessMode::Off ==> check_spec(
            cfg,
            claims,
            channel,
            action,
        ) is Some,
        action_mode(cfg.spec_namespace(channel).access, action) == AccessMode::Public ==> check_spec(
            cfg,
            claims,
            channel,
            action,
        ) is None,
        action_mode(cfg.spec_namespace(channel).access, action) == AccessMode::Token ==> (check_spec(
            cfg,
            claims,
            channel,
            action,
        ) is None <==> (claims matches Some(c) && claims_allow(c, channel, allow_key_spec(action)))),
{
}

/// Each action is decided by the access mode of the same name, past the namespace check: the
/// namespace's `access.subscribe` decides subscribing, `access.publish` publishing,
/// `access.presence` presence and `access.history` history. An `off` mode denies, a `public`
/// one allows, and a `token` one allows exactly when a grant of the token matches the channel
/// with the right of the same name (`sub`, `pub`, `presence`, `history`); whatever the other
/// modes are.
pub proof fn lemma_each_action_by_its_mode(cfg: Config, claims: Option<ClaimsModel>, channel: Seq<char>)
    requires
        !cfg.strict_namespaces || cfg.namespaces@.dom().contains(namespace_of(channel)),
    ensures
        ({
            let a = cfg.spec_namespace(channel).access;
            &&& a.subscribe == AccessMode::Off ==> check_spec(cfg, claims, channel, Action::Subscribe)
                == Some("action_off"@)
            &&& a.subscribe == AccessMode::Public ==> check_spec(cfg, claims, channel, Action::Subscribe)
                is None
            &&& a.subscribe == AccessMode::Token ==> (check_spec(cfg, claims, channel, Action::Subscribe)
                is None <==> (claims matches Some(c) && claims_allow(c, channel, "sub"@)))
            &&& a.publish == AccessMode::Off ==> check_spec(cfg, claims, channel, Action::Publish)
                == Some("action_off"@)
            &&& a.publish == AccessMode::Public ==> check_spec(cfg, claims, channel, Action::Publish)
                is None
            &&& a.publish == AccessMode::Token ==> (check_spec(cfg, claims, channel, Action::Publish)
                is None <==> (claims matches Some(c) && claims_allow(c, channel, "pub"@)))
            &&& a.presence == AccessMode::Off ==> check_spec(cfg, claims, channel, Action::Presence)
                == Some("action_off"@)
            &&& a.presence == AccessMode::Public ==> check_spec(cfg, claims, channel, Action::Presence)
                is None
            &&& a.presence == AccessMode::Token ==> (check_spec(cfg, claims, channel, Action::Presence)
                is None <==> (claims matches Some(c) && claims_allow(c, channel, "presence"@)))
            &&& a.history == AccessMode::Off ==> check_spec(cfg, claims, channel, Action::History)
                == Some("action_off"@)
            &&& a.history == AccessMode::Public ==> check_spec(cfg, claims, channel, Action::History)
                is None
            &&& a.history == AccessMode::Token ==> (check_spec(cfg, claims, channel, Action::History)
                is None <==> (claims matches Some(c) && claims_allow(c, channel, "history"@)))
        }),
{
}

/// With strict namespaces, every action on a channel of an unknown namespace is denied.
pub proof fn lemma_unknown_namespace_denied(
    cfg: Config,
    claims: Option<ClaimsModel>,
    channel: Seq<char>,
    action: Action,
)
    requires
        cfg.strict_namespaces,
        !cfg.namespaces@.dom().contains(namespace_of(channel)),
    ensures
        check_spec(cfg, claims, channel, action) == Some("unknown_namespace"@),
{
}

} // verus!
