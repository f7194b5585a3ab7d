use std::sync::Arc;

use manifold::api::ApiService;
use manifold::auth::{ChannelGrant, Claims};
use manifold::broker::ControlCommand;
use manifold::config::{
    Access, AccessMode, AdminAuthKind, AdminConfig, ApiKey, Auth, Config, ConnLimits, Events, Jwt,
    Limits, Listen, NamespaceConfig, Redis, Security, Server, Shutdown, SseConfig, Telemetry, Tls,
    WsConfig,
};
use manifold::protocol::{
    Command, ConnectRequest, HistoryRequest, Method, PingRequest, PublishRequest, PushEvent, Reply,
    ReplyPayload, StreamPosition, SubscribeRequest,
};
use manifold::strmap::StrMap;
use tokio::sync::mpsc;

fn listen(addr: &str) -> Listen {
    Listen { listen: addr.to_string(), path: None }
}

fn ns(access: Access, presence: bool, join_leave: bool, history_size: usize) -> NamespaceConfig {
    NamespaceConfig {
        access,
        presence,
        join_leave,
        history_size,
        history_ttl: None,
        max_subscribers: 0,
        name_max_len: None,
        rate_limit: None,
    }
}

/// The configuration of the repository (`config.toml`), built by hand.
fn repo_config() -> Config {
    let token = AccessMode::Token;
    let mut namespaces = StrMap::new();
    namespaces.insert(
        "news".to_string(),
        ns(
            Access { subscribe: AccessMode::Public, publish: AccessMode::Off, presence: AccessMode::Public, history: AccessMode::Public },
            false,
            false,
            100,
        ),
    );
    namespaces.insert(
        "chat".to_string(),
        ns(Access { subscribe: token, publish: token, presence: token, history: token }, true, true, 300),
    );
    namespaces.insert(
        "user".to_string(),
        ns(Access { subscribe: token, publish: AccessMode::Off, presence: AccessMode::Off, history: token }, false, false, 50),
    );
    Config {
        server: Server {
            node_name: "socket-1".to_string(),
            log_level: "info".to_string(),
            ws: WsConfig {
                listen: "0.0.0.0:8000".to_string(),
                path: "/connection/websocket".to_string(),
                max_message_size: "65536".to_string(),
                ping_interval_ms: 25_000,
            },
            sse: SseConfig { enabled: true, path: "/connection/sse".to_string(), emit_path: "/connection/sse/emit".to_string() },
            http_api: Listen { listen: "0.0.0.0:8001".to_string(), path: Some("/api".to_string()) },
            grpc_api: listen("0.0.0.0:8002"),
            admin: AdminConfig { listen: "127.0.0.1:8003".to_string(), enabled: true, auth: AdminAuthKind::Password, password: String::new() },
            health: listen("0.0.0.0:8004"),
            security: Security {
                allowed_origins: vec![],
                cors_allowed_origins: vec![],
                cors_allow_credentials: true,
                trusted_proxies: vec![],
                ip_allow: vec![],
                ip_deny: vec![],
            },
            conn_limits: ConnLimits { max_connections: 0, max_connections_per_ip: 100, max_connections_per_user: 0, require_subprotocol: true },
            tls: Tls { enabled: false, cert_path: String::new(), key_path: String::new() },
        },
        redis: Redis { url: "redis://127.0.0.1:6379".to_string(), prefix: "socket".to_string(), idempotency_ttl: None, enabled: false },
        auth: Auth {
            jwt: Jwt {
                algorithm: "HS256".to_string(),
                hmac_secret: Some("dev-secret".to_string()),
                jwks_url: None,
                audience: Some("socket".to_string()),
                channels_claim: "channels".to_string(),
            },
        },
        api_keys: vec![ApiKey { key: "k".to_string(), allow: vec![] }],
        defaults: ns(Access { subscribe: token, publish: AccessMode::Off, presence: token, history: token }, false, false, 0),
        namespaces,
        limits: Limits { max_channels_per_connection: 1000, max_commands_per_second: 100 },
        shutdown: Shutdown { drain_timeout: None, reconnect_advice: true },
        events: Events { enabled: false, endpoint: String::new(), types: vec![], transport: None },
        telemetry: Telemetry { log_format: None, tracing_enabled: false, otlp_endpoint: None },
        strict_namespaces: true,
    }
}

fn api() -> ApiService {
    ApiService::in_memory(Arc::new(repo_config()))
}

fn claims(user: &str, pattern: &str, allow: &[&str]) -> Claims {
    Claims {
        sub: user.into(),
        exp: None,
        channels: vec![ChannelGrant { pattern: pattern.into(), allow: allow.iter().map(|s| s.to_string()).collect() }],
    }
}

fn sub_req(channel: &str) -> SubscribeRequest {
    SubscribeRequest { channel: channel.into(), token: String::new(), recover: false, position: None }
}

fn pub_req(channel: &str, data: &[u8], transient: bool) -> PublishRequest {
    PublishRequest { channel: channel.into(), data: data.to_vec(), transient }
}

fn next_pub(rx: &mut mpsc::Receiver<Reply>) -> manifold::protocol::Publication {
    loop {
        let reply = rx.try_recv().expect("a publication was delivered");
        if let Some(ReplyPayload::Push(p)) = reply.payload {
            if let Some(PushEvent::Pub(pb)) = p.event {
                return pb;
            }
        }
    }
}

#[test]
fn publish_fans_out_to_subscribers() {
    let mut api = api();
    let (tx_a, _rx_a) = mpsc::channel(32);
    let (tx_b, mut rx_b) = mpsc::channel(32);
    let a = api.register(Some(claims("u-a", "chat:room:*", &["sub", "pub"])), tx_a);
    let b = api.register(Some(claims("u-b", "chat:room:*", &["sub"])), tx_b);

    api.subscribe(&a, &sub_req("chat:room:1")).unwrap();
    api.subscribe(&b, &sub_req("chat:room:1")).unwrap();

    api.publish(&a, &pub_req("chat:room:1", b"hello", false)).unwrap();

    let got = next_pub(&mut rx_b);
    assert_eq!(got.data, b"hello");
    assert_eq!(got.offset, 1, "chat is recoverable, so the publication gets an offset");
}

#[test]
fn subscribe_denied_without_grant() {
    let mut api = api();
    let (tx, _rx) = mpsc::channel(8);
    let c = api.register(Some(claims("u", "chat:room:*", &["sub"])), tx);
    let err = api.subscribe(&c, &sub_req("user:u:notifications")).unwrap_err();
    assert_eq!(err.code, 103);
}

#[test]
fn public_namespace_subscribes_without_token() {
    let mut api = api();
    let (tx, _rx) = mpsc::channel(8);
    let c = api.register(None, tx);
    let res = api.subscribe(&c, &sub_req("news:sports")).unwrap();
    assert!(res.recoverable);
}

#[test]
fn client_publish_to_public_feed_is_denied() {
    let mut api = api();
    let (tx, _rx) = mpsc::channel(8);
    let c = api.register(None, tx);
    let err = api.publish(&c, &pub_req("news:sports", b"x", false)).unwrap_err();
    assert_eq!(err.code, 103);
}

#[test]
fn transient_publish_skips_history() {
    let mut api = api();
    let (tx, _rx) = mpsc::channel(8);
    let c = api.register(Some(claims("u", "chat:room:*", &["sub", "pub", "history"])), tx);
    api.subscribe(&c, &sub_req("chat:room:9")).unwrap();

    api.publish(&c, &pub_req("chat:room:9", b"typing", true)).unwrap();

    let res = api
        .history(&c, &HistoryRequest { channel: "chat:room:9".into(), limit: 10, since: None, reverse: false })
        .unwrap();
    assert!(res.publications.is_empty(), "a transient publication stays out of history");
}

#[test]
fn recovery_returns_missed_publications() {
    let mut api = api();
    let (tx_pub, _r) = mpsc::channel(32);
    let pubr = api.register(Some(claims("p", "chat:room:*", &["sub", "pub"])), tx_pub);
    let sub_res = api.subscribe(&pubr, &sub_req("chat:room:5")).unwrap();
    let epoch = sub_res.position.unwrap().epoch;

    for i in 0..3u8 {
        api.publish(&pubr, &pub_req("chat:room:5", &[i], false)).unwrap();
    }

    let (tx_late, _r2) = mpsc::channel(32);
    let late = api.register(Some(claims("l", "chat:room:*", &["sub"])), tx_late);
    let res = api
        .subscribe(
            &late,
            &SubscribeRequest { channel: "chat:room:5".into(), token: String::new(), recover: true, position: Some(StreamPosition { offset: 1, epoch }) },
        )
        .unwrap();

    assert!(res.recovered, "the gap lies within history");
    assert_eq!(res.publications.len(), 2, "offsets 2 and 3 were missed");
    assert_eq!(res.publications[0].offset, 2);
}

#[test]
fn recovery_from_another_epoch_fails() {
    let mut api = api();
    let (tx, _r) = mpsc::channel(32);
    let c = api.register(Some(claims("p", "chat:room:*", &["sub", "pub"])), tx);
    api.subscribe(&c, &sub_req("chat:room:6")).unwrap();
    api.publish(&c, &pub_req("chat:room:6", b"a", false)).unwrap();
    let res = api
        .subscribe(
            &c,
            &SubscribeRequest { channel: "chat:room:6".into(), token: String::new(), recover: true, position: Some(StreamPosition { offset: 0, epoch: "not-this-epoch".into() }) },
        )
        .unwrap();
    assert!(!res.recovered);
    assert!(res.publications.is_empty());
}

#[test]
fn connection_ids_count_up_from_one() {
    let mut api = api();
    let (tx, _r) = mpsc::channel(8);
    let a = api.register(None, tx.clone());
    let b = api.register(None, tx);
    assert_eq!(a, "socket-1-1");
    assert_eq!(b, "socket-1-2");
    assert_eq!(api.metrics.connections_opened, 2);
}

#[test]
fn unknown_namespace_is_denied() {
    let mut api = api();
    let (tx, _rx) = mpsc::channel(8);
    let c = api.register(Some(claims("u", "**", &["sub"])), tx);
    let err = api.subscribe(&c, &sub_req("other:x")).unwrap_err();
    assert_eq!(err.code, 103);
    assert_eq!(err.message, "unknown_namespace");
    assert!(!err.temporary);
}

#[test]
fn presence_tracks_subscribers_and_join_is_pushed() {
    let mut api = api();
    let (tx_a, mut rx_a) = mpsc::channel(32);
    let (tx_b, _rx_b) = mpsc::channel(32);
    let a = api.register(Some(claims("ua", "chat:**", &["sub", "presence"])), tx_a);
    let b = api.register(Some(claims("ub", "chat:**", &["sub"])), tx_b);
    api.subscribe(&a, &sub_req("chat:r")).unwrap();
    api.subscribe(&b, &sub_req("chat:r")).unwrap();
    let mut joined = Vec::new();
    while let Ok(r) = rx_a.try_recv() {
        if let Some(ReplyPayload::Push(p)) = r.payload {
            if let Some(PushEvent::Join(j)) = p.event {
                joined.push(j.info.unwrap().user);
            }
        }
    }
    assert_eq!(joined, vec!["ua", "ub"], "a subscriber hears its own join, then the next one");
    let res = api.presence(&a, "chat:r").unwrap();
    assert_eq!(res.presence.len(), 2);
    api.unsubscribe(&b, "chat:r");
    let res = api.presence(&a, "chat:r").unwrap();
    assert_eq!(res.presence.len(), 1);
    assert!(res.presence.contains_key(&a));
}

#[test]
fn cleanup_leaves_every_channel() {
    let mut api = api();
    let (tx, _rx) = mpsc::channel(32);
    let c = api.register(Some(claims("u", "chat:**", &["sub"])), tx);
    api.subscribe(&c, &sub_req("chat:a")).unwrap();
    api.subscribe(&c, &sub_req("chat:b")).unwrap();
    assert_eq!(api.api_info().num_channels, 2);
    api.cleanup(&c);
    let info = api.api_info();
    assert_eq!(info.num_channels, 0);
    assert_eq!(info.num_connections, 0);
    assert_eq!(api.metrics.connections_closed, 1);
    let kinds: Vec<String> = api.take_events().into_iter().map(|e| e.kind).collect();
    assert_eq!(kinds, vec!["subscribed", "subscribed", "disconnected"]);
}

#[test]
fn handle_command_answers_ping_and_refuses_second_connect() {
    let mut api = api();
    let (tx, _rx) = mpsc::channel(8);
    let c = api.register(None, tx);
    let r = api.handle_command(&c, Command { id: 7, method: Some(Method::Ping(PingRequest {})) }).unwrap();
    assert_eq!(r.id, 7);
    assert!(r.error.is_none());
    assert!(matches!(r.payload, Some(ReplyPayload::Pong(_))));
    let connect = ConnectRequest { token: String::new(), subs: StrMap::new(), headers: StrMap::new(), name: String::new(), protocol_version: 1 };
    let r = api.handle_command(&c, Command { id: 8, method: Some(Method::Connect(connect)) }).unwrap();
    assert_eq!(r.error.unwrap().code, 108);
    assert!(api.handle_command(&c, Command { id: 9, method: None }).is_none());
}

#[test]
fn connect_restores_granted_subscriptions() {
    let mut api = api();
    let (tx, _rx) = mpsc::channel(32);
    let c = api.register(Some(claims("u", "chat:**", &["sub"])), tx);
    let mut subs = StrMap::new();
    subs.insert("chat:a".to_string(), sub_req("ignored"));
    subs.insert("user:u:x".to_string(), sub_req("ignored"));
    let req = ConnectRequest { token: String::new(), subs, headers: StrMap::new(), name: String::new(), protocol_version: 1 };
    let res = api.connect(&c, &req);
    assert_eq!(res.client, c);
    assert_eq!(res.ping_interval_ms, 25_000);
    assert_eq!(res.subs.len(), 1);
    assert!(res.subs.contains_key("chat:a"));
}

#[test]
fn idempotent_backend_publish_is_answered_once() {
    let mut api = api();
    let first = api.api_publish("chat:room:1", b"x".to_vec(), Some("key-1")).unwrap();
    let retry = api.api_publish("chat:room:1", b"y".to_vec(), Some("key-1")).unwrap();
    assert_eq!(first.offset, 1);
    assert_eq!(retry.offset, first.offset);
    assert_eq!(retry.epoch, first.epoch);
    assert_eq!(api.metrics.messages_published, 1);
    let next = api.api_publish("chat:room:1", b"z".to_vec(), None).unwrap();
    assert_eq!(next.offset, 2);
}

#[test]
fn broadcast_reports_each_channel_offset() {
    let mut api = api();
    let channels = vec!["chat:a".to_string(), "news:b".to_string(), "chat:a".to_string(), "other:c".to_string()];
    let out = api.api_broadcast(&channels, b"m".to_vec());
    assert_eq!(out.len(), 3);
    assert_eq!(*out.get("chat:a").unwrap(), 2);
    assert_eq!(*out.get("news:b").unwrap(), 1);
    assert_eq!(*out.get("other:c").unwrap(), 0);
    assert_eq!(api.metrics.messages_published, 4);
}

#[test]
fn backend_history_from_the_start() {
    let mut api = api();
    for d in [b"1", b"2", b"3"] {
        api.api_publish("news:x", d.to_vec(), None).unwrap();
    }
    let (pubs, pos) = api.api_history("news:x", 2).unwrap();
    assert_eq!(pubs.len(), 2);
    assert_eq!(pubs[0].offset, 1);
    assert_eq!(pos.offset, 3);
    let (pubs, pos) = api.api_history("news:none", 10).unwrap();
    assert!(pubs.is_empty());
    assert_eq!(pos.offset, 0);
    assert_eq!(pos.epoch, "");
}

#[test]
fn channels_filter_and_user_online() {
    let mut api = api();
    let (tx, _rx) = mpsc::channel(32);
    let c = api.register(Some(claims("u", "**", &["sub"])), tx.clone());
    let d = api.register(Some(claims("u", "**", &["sub"])), tx);
    api.subscribe(&c, &sub_req("chat:a")).unwrap();
    api.subscribe(&d, &sub_req("news:b")).unwrap();
    let mut all = api.api_channels(None);
    all.sort();
    assert_eq!(all, vec!["chat:a", "news:b"]);
    assert_eq!(api.api_channels(Some("chat:*")), vec!["chat:a"]);
    assert_eq!(api.api_channels(Some("")).len(), 2);
    assert_eq!(api.api_user_online("u"), (true, 2));
    assert_eq!(api.api_user_online("nobody"), (false, 0));
}

#[test]
fn server_unsubscribe_takes_the_user_off_the_channel() {
    let mut api = api();
    let (tx, mut rx) = mpsc::channel(32);
    let (tx2, _rx2) = mpsc::channel(32);
    let c = api.register(Some(claims("u", "**", &["sub"])), tx);
    let other = api.register(Some(claims("v", "**", &["sub"])), tx2);
    api.subscribe(&c, &sub_req("news:a")).unwrap();
    api.subscribe(&other, &sub_req("news:a")).unwrap();
    api.api_unsubscribe("u", "news:a");
    let mut got_push = false;
    while let Ok(r) = rx.try_recv() {
        if let Some(ReplyPayload::Push(p)) = r.payload {
            if let Some(PushEvent::Unsubscribe(_)) = p.event {
                got_push = p.channel == "news:a";
            }
        }
    }
    assert!(got_push);
    assert_eq!(api.api_info().num_channels, 1);
    api.control(ControlCommand::Unsubscribe { user: "v".into(), channel: "news:a".into() });
    assert_eq!(api.api_info().num_channels, 0);
}

#[test]
fn forced_disconnect_pushes_disconnect() {
    let mut api = api();
    let (tx, mut rx) = mpsc::channel(8);
    let c = api.register(Some(claims("u", "**", &["sub"])), tx);
    api.api_disconnect("", &c, 3000, "bye");
    let r = rx.try_recv().unwrap();
    match r.payload {
        Some(ReplyPayload::Push(p)) => match p.event {
            Some(PushEvent::Disconnect(d)) => {
                assert_eq!(d.code, 3000);
                assert_eq!(d.reason, "bye");
                assert!(!d.reconnect);
            }
            _ => panic!("not a disconnect"),
        },
        _ => panic!("not a push"),
    }
    api.api_disconnect("", "", 1, "nobody");
    assert!(rx.try_recv().is_err());
}

#[test]
fn handshake_accepts_or_refuses() {
    let mut api = api();
    let (tx, _rx) = mpsc::channel(8);
    let connect = ConnectRequest { token: "t".into(), subs: StrMap::new(), headers: StrMap::new(), name: String::new(), protocol_version: 1 };
    let cmd = Command { id: 1, method: Some(Method::Connect(connect.clone())) };
    assert_eq!(manifold::api::connect_token(&cmd).unwrap(), "t");
    let (reply, id) = api.handshake(cmd, Ok(claims("u", "**", &["sub"])), tx.clone());
    assert_eq!(id.unwrap(), "socket-1-1");
    let reply = reply.unwrap();
    assert_eq!(reply.id, 1);
    assert!(matches!(reply.payload, Some(ReplyPayload::Connect(_))));

    let cmd = Command { id: 2, method: Some(Method::Connect(connect)) };
    let (reply, id) = api.handshake(cmd, Err("bad token".into()), tx.clone());
    assert!(id.is_none());
    let e = reply.unwrap().error.unwrap();
    assert_eq!(e.code, 101);
    assert_eq!(e.message, "bad token");

    let (reply, id) = api.handshake(Command { id: 3, method: Some(Method::Ping(PingRequest {})) }, Ok(claims("u", "**", &[])), tx);
    assert!(reply.is_none() && id.is_none());
}

#[test]
fn sse_session_opens_with_connect_result() {
    let mut api = api();
    let (tx, _rx) = mpsc::channel(8);
    let (sid, first) = api.sse_open(claims("u", "**", &[]), tx);
    assert_eq!(sid, "socket-1-1");
    assert_eq!(first.id, 0);
    match first.payload {
        Some(ReplyPayload::Connect(r)) => assert_eq!(r.client, sid),
        _ => panic!("not a connect result"),
    }
}

#[test]
fn refresh_is_not_implemented() {
    let mut api = api();
    let (tx, _rx) = mpsc::channel(8);
    let c = api.register(None, tx);
    let r = api
        .handle_command(&c, Command { id: 4, method: Some(Method::Refresh(manifold::protocol::RefreshRequest { token: String::new() })) })
        .unwrap();
    let e = r.error.unwrap();
    assert_eq!(e.code, 109);
    assert_eq!(e.message, "refresh_not_implemented");
    assert!(r.payload.is_none());
}

#[test]
fn broker_failures_are_temporary_errors() {
    let e = manifold::api::broker_err(manifold::broker::BrokerError::Redis("down".into()));
    assert_eq!(e.code, 110);
    assert!(e.temporary);
    assert_eq!(e.message, "broker: redis: down");
}

#[test]
fn token_namespace_needs_a_token() {
    let mut api = api();
    let (tx, _rx) = mpsc::channel(8);
    let c = api.register(None, tx);
    let err = api.subscribe(&c, &sub_req("chat:room:1")).unwrap_err();
    assert_eq!(err.message, "token_required");
    let (tx, _rx) = mpsc::channel(8);
    let d = api.register(Some(claims("u", "news:*", &["sub"])), tx);
    let err = api.subscribe(&d, &sub_req("chat:room:1")).unwrap_err();
    assert_eq!(err.message, "not_permitted");
    let err = api.publish(&d, &pub_req("user:u:x", b"x", false)).unwrap_err();
    assert_eq!(err.message, "action_off");
}

#[test]
fn unsubscribe_undoes_subscribe() {
    let mut api = api();
    let (tx, _rx) = mpsc::channel(8);
    let c = api.register(Some(claims("u", "news:**", &["sub"])), tx);
    assert_eq!(api.api_info().num_channels, 0);
    api.subscribe(&c, &sub_req("news:x")).unwrap();
    assert_eq!(api.api_info().num_channels, 1);
    api.unsubscribe(&c, "news:x");
    assert_eq!(api.api_info().num_channels, 0);
    assert!(api.api_channels(None).is_empty());
}

fn api_with(name: &str, presence: bool, join_leave: bool, max_subscribers: u32) -> ApiService {
    let mut cfg = repo_config();
    let public = AccessMode::Public;
    let mut n = ns(Access { subscribe: public, publish: public, presence: public, history: public }, presence, join_leave, 0);
    n.max_subscribers = max_subscribers;
    cfg.namespaces.insert(name.to_string(), n);
    ApiService::in_memory(Arc::new(cfg))
}

fn pushed_leaves(rx: &mut mpsc::Receiver<Reply>) -> Vec<String> {
    let mut left = Vec::new();
    while let Ok(r) = rx.try_recv() {
        if let Some(ReplyPayload::Push(p)) = r.payload {
            if let Some(PushEvent::Leave(l)) = p.event {
                left.push(l.info.unwrap().client);
            }
        }
    }
    left
}

#[test]
fn subscriber_limit_refuses_one_more_subscriber() {
    let mut api = api_with("lobby", false, false, 2);
    let (tx, _rx) = mpsc::channel(8);
    let a = api.register(None, tx.clone());
    let b = api.register(None, tx.clone());
    let c = api.register(None, tx);
    api.subscribe(&a, &sub_req("lobby:1")).unwrap();
    api.subscribe(&b, &sub_req("lobby:1")).unwrap();
    let err = api.subscribe(&c, &sub_req("lobby:1")).unwrap_err();
    assert_eq!(err.code, 106);
    assert_eq!(err.message, "subscriber_limit");
    assert!(err.temporary);
    assert_eq!(api.metrics.subscriptions, 2);
    api.subscribe(&a, &sub_req("lobby:1")).unwrap();
    api.subscribe(&c, &sub_req("lobby:2")).unwrap();
    api.unsubscribe(&b, "lobby:1");
    api.subscribe(&c, &sub_req("lobby:1")).unwrap();
}

#[test]
fn connect_skips_channels_at_their_limit() {
    let mut api = api_with("lobby", false, false, 1);
    let (tx, _rx) = mpsc::channel(8);
    let a = api.register(None, tx.clone());
    let b = api.register(None, tx);
    api.subscribe(&a, &sub_req("lobby:full")).unwrap();
    let mut subs = StrMap::new();
    subs.insert("lobby:full".to_string(), sub_req("lobby:full"));
    subs.insert("lobby:free".to_string(), sub_req("lobby:free"));
    let req = ConnectRequest { token: String::new(), subs, headers: StrMap::new(), name: String::new(), protocol_version: 1 };
    let res = api.connect(&b, &req);
    assert_eq!(res.subs.len(), 1);
    assert!(res.subs.contains_key("lobby:free"));
    assert_eq!(res.expires_in_s, 0);
    assert_eq!(res.ping_interval_ms, 25_000);
}

#[test]
fn leave_is_pushed_where_joins_are_announced() {
    let mut api = api_with("game", false, true, 0);
    let (tx_a, mut rx_a) = mpsc::channel(32);
    let (tx_b, _rx_b) = mpsc::channel(32);
    let (tx_c, _rx_c) = mpsc::channel(32);
    let a = api.register(None, tx_a);
    let b = api.register(None, tx_b);
    let c = api.register(None, tx_c);
    api.subscribe(&a, &sub_req("game:1")).unwrap();
    api.subscribe(&b, &sub_req("game:1")).unwrap();
    api.subscribe(&c, &sub_req("game:1")).unwrap();
    let _ = pushed_leaves(&mut rx_a);
    api.unsubscribe(&b, "game:1");
    assert_eq!(pushed_leaves(&mut rx_a), vec![b.clone()]);
    api.cleanup(&c);
    assert!(pushed_leaves(&mut rx_a).is_empty(), "a dropped connection without presence leaves quietly");
}

#[test]
fn dropped_connection_leaves_where_presence_is_tracked() {
    let mut api = api_with("room", true, true, 0);
    let (tx_a, mut rx_a) = mpsc::channel(32);
    let (tx_b, _rx_b) = mpsc::channel(32);
    let a = api.register(None, tx_a);
    let b = api.register(None, tx_b);
    api.subscribe(&a, &sub_req("room:1")).unwrap();
    api.subscribe(&b, &sub_req("room:1")).unwrap();
    let _ = pushed_leaves(&mut rx_a);
    api.cleanup(&b);
    assert_eq!(pushed_leaves(&mut rx_a), vec![b.clone()]);
    assert_eq!(api.presence(&a, "room:1").unwrap().presence.len(), 1);
}

#[test]
fn no_leave_where_joins_are_not_announced() {
    let mut api = api_with("quiet", true, false, 0);
    let (tx_a, mut rx_a) = mpsc::channel(32);
    let (tx_b, _rx_b) = mpsc::channel(32);
    let a = api.register(None, tx_a);
    let b = api.register(None, tx_b);
    api.subscribe(&a, &sub_req("quiet:1")).unwrap();
    api.subscribe(&b, &sub_req("quiet:1")).unwrap();
    api.unsubscribe(&b, "quiet:1");
    assert!(pushed_leaves(&mut rx_a).is_empty());
    assert!(rx_a.try_recv().is_err());
}

#[test]
fn denied_subscribe_pushes_no_join() {
    let mut api = api();
    let (tx_a, mut rx_a) = mpsc::channel(32);
    let (tx_b, _rx_b) = mpsc::channel(32);
    let a = api.register(Some(claims("ua", "chat:**", &["sub"])), tx_a);
    let b = api.register(Some(claims("ub", "news:**", &["sub"])), tx_b);
    api.subscribe(&a, &sub_req("chat:r")).unwrap();
    while rx_a.try_recv().is_ok() {}
    assert!(api.subscribe(&b, &sub_req("chat:r")).is_err());
    assert!(rx_a.try_recv().is_err());
}
