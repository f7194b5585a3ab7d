use manifold::api::NodeStats;
use manifold::config::ApiKey;
use manifold::metrics::Metrics;
use manifold::protocol::ClientInfo;
use manifold::server::{
    admin_may_start, api_key_allows, base64_of, event_wanted, header_api_key, history_limit,
    listen_is_local, login_ok, metrics_text, mint, non_empty, presence_stats, request_data,
    session_cookie, session_token, trim, valid_session, valid_session_at,
};
use manifold::strmap::StrMap;

fn keys() -> Vec<ApiKey> {
    vec![
        ApiKey { key: "backend".to_string(), allow: vec![] },
        ApiKey { key: "pub".to_string(), allow: vec!["publish".to_string(), "broadcast".to_string()] },
    ]
}

#[test]
fn api_keys() {
    let k = keys();
    assert_eq!(header_api_key(Some("apikey abc")), "abc");
    assert_eq!(header_api_key(Some("Bearer abc")), "");
    assert_eq!(header_api_key(None), "");
    assert!(api_key_allows(&k, Some("apikey backend"), "info"));
    assert!(api_key_allows(&k, Some("apikey pub"), "publish"));
    assert!(!api_key_allows(&k, Some("apikey pub"), "info"));
    assert!(!api_key_allows(&k, Some("apikey nope"), "publish"));
    assert!(!api_key_allows(&k, Some("apikey "), "publish"));
    assert!(!api_key_allows(&k, None, "publish"));
}

#[test]
fn request_defaults() {
    assert_eq!(history_limit(0), 100);
    assert_eq!(history_limit(7), 7);
    assert_eq!(non_empty(""), None);
    assert_eq!(non_empty("x"), Some("x"));
}

#[test]
fn presence_statistics() {
    let mut p = StrMap::new();
    for (c, u) in [("c1", "u1"), ("c2", "u1"), ("c3", "u2")] {
        p.insert(c.to_string(), ClientInfo { user: u.to_string(), client: c.to_string(), conn_info: vec![], chan_info: vec![] });
    }
    assert_eq!(presence_stats(&p), (3, 2));
    assert_eq!(presence_stats(&StrMap::new()), (0, 0));
}

#[test]
fn admin_session_cookie() {
    assert_eq!(trim("  a b \t"), "a b");
    assert_eq!(trim("\u{3000}x\u{a0}"), "x");
    assert_eq!(session_token("theme=dark; admin_session=tok; other=1"), "tok");
    assert_eq!(session_token("admin_session=first;admin_session=second"), "first");
    assert_eq!(session_token("theme=dark"), "");
    assert_eq!(session_token(""), "");
    assert_eq!(
        session_cookie("t"),
        "admin_session=t; HttpOnly; Path=/; Max-Age=86400; SameSite=Lax"
    );
    assert!(login_ok("pw", "pw"));
    assert!(!login_ok("pw", "px"));
    assert!(!login_ok("", ""));
    assert!(!valid_session("theme=dark", "pw"));
}

#[test]
fn admin_tokens_are_signed_sessions() {
    let now = manifold::server::now();
    let token = mint("pw", now);
    assert_eq!(token.split('.').count(), 3);
    let cookie = format!("admin_session={token}");
    assert!(valid_session(&cookie, "pw"));
    assert!(!valid_session(&cookie, "other"));
    let expired = mint("pw", 0);
    assert!(!valid_session(&format!("admin_session={expired}"), "pw"));
}

#[test]
fn admin_session_expiry_with_leeway() {
    let token = mint("pw", 1000);
    let cookie = format!("admin_session={token}");
    assert!(valid_session_at(&cookie, "pw", 1000));
    assert!(valid_session_at(&cookie, "pw", 87_400));
    assert!(valid_session_at(&cookie, "pw", 87_460));
    assert!(!valid_session_at(&cookie, "pw", 87_461));
    assert!(!valid_session_at(&cookie, "other", 1000));
    assert!(!valid_session_at("theme=dark", "pw", 1000));
}

#[test]
fn admin_listener() {
    assert!(listen_is_local("127.0.0.1:8003"));
    assert!(listen_is_local("localhost:8003"));
    assert!(!listen_is_local("0.0.0.0:8003"));
    assert!(admin_may_start("", "127.0.0.1:8003"));
    assert!(!admin_may_start("", "0.0.0.0:8003"));
    assert!(admin_may_start("pw", "0.0.0.0:8003"));
}

#[test]
fn webhook_event_filter() {
    assert!(event_wanted(&vec![], "connected"));
    assert!(event_wanted(&vec!["connected".to_string()], "connected"));
    assert!(!event_wanted(&vec!["connected".to_string()], "subscribed"));
}

#[test]
fn base64_framing() {
    assert_eq!(base64_of(&b"hello".to_vec()), "aGVsbG8=");
    assert_eq!(request_data("aGVsbG8="), b"hello".to_vec());
    assert_eq!(request_data("not base64!"), Vec::<u8>::new());
}

#[test]
fn metrics_page() {
    let stats = NodeStats { node: "n1".to_string(), num_connections: 2, num_channels: 3 };
    let m = Metrics { messages_published: 4, subscriptions: 5, unsubscriptions: 0, connections_opened: 6, connections_closed: 7 };
    let t = metrics_text(&stats, &m);
    assert!(t.starts_with("# HELP socket_connections Current connections on node\n# TYPE socket_connections gauge\nsocket_connections{node=\"n1\"} 2\n"));
    assert!(t.contains("socket_channels{node=\"n1\"} 3\n"));
    assert!(t.contains("socket_messages_published_total{node=\"n1\"} 4\n"));
    assert!(t.contains("socket_subscriptions_total{node=\"n1\"} 5\n"));
    assert!(t.contains("socket_connections_opened_total{node=\"n1\"} 6\n"));
    assert!(t.ends_with("socket_connections_closed_total{node=\"n1\"} 7\n"));
    assert_eq!(t.lines().count(), 18);
}

#[test]
fn login_cookie_reads_back() {
    for t in ["", "abc.def.ghi", "x y"] {
        let set = session_cookie(t);
        assert_eq!(session_token(&set), t);
    }
}

#[test]
fn base64_round_trip() {
    for bytes in [vec![], vec![0u8], vec![1u8, 2], vec![255u8, 254, 253], b"publication data".to_vec()] {
        assert_eq!(request_data(&base64_of(&bytes)), bytes);
    }
}
