use manifold::config::{
    inherit, Access, AccessMode, AccessOverrides, Bucket, BucketScope, NamespaceConfig,
    NamespaceOverrides, RateLimit,
};

fn defaults() -> NamespaceConfig {
    NamespaceConfig {
        access: Access {
            subscribe: AccessMode::Token,
            publish: AccessMode::Off,
            presence: AccessMode::Token,
            history: AccessMode::Token,
        },
        presence: true,
        join_leave: false,
        history_size: 10,
        history_ttl: Some("1h".to_string()),
        max_subscribers: 100,
        name_max_len: Some(64),
        rate_limit: Some(RateLimit {
            publish: Some(Bucket { rate: 5, burst: 10, scope: BucketScope::Client }),
            subscribe: None,
        }),
    }
}

fn nothing_set() -> NamespaceOverrides {
    NamespaceOverrides {
        access: AccessOverrides { subscribe: None, publish: None, presence: None, history: None },
        presence: None,
        join_leave: None,
        history_size: None,
        history_ttl: None,
        max_subscribers: None,
        name_max_len: None,
        rate_limit: None,
    }
}

#[test]
fn an_empty_section_is_the_defaults() {
    let d = defaults();
    let n = inherit(&d, &nothing_set());
    assert_eq!(n.access, d.access);
    assert!(n.presence);
    assert!(!n.join_leave);
    assert_eq!(n.history_size, 10);
    assert_eq!(n.history_ttl.as_deref(), Some("1h"));
    assert_eq!(n.max_subscribers, 100);
    assert_eq!(n.name_max_len, Some(64));
    assert_eq!(n.rate_limit, d.rate_limit);
}

#[test]
fn a_section_keeps_what_it_sets() {
    let d = defaults();
    let mut o = nothing_set();
    o.access.publish = Some(AccessMode::Public);
    o.join_leave = Some(true);
    o.presence = Some(false);
    o.history_size = Some(0);
    o.history_ttl = Some("24h".to_string());
    o.max_subscribers = Some(5000);
    let n = inherit(&d, &o);
    assert_eq!(n.access.publish, AccessMode::Public);
    assert_eq!(n.access.subscribe, AccessMode::Token);
    assert!(!n.presence);
    assert!(n.join_leave);
    assert_eq!(n.history_size, 0);
    assert_eq!(n.history_ttl.as_deref(), Some("24h"));
    assert_eq!(n.max_subscribers, 5000);
    assert_eq!(n.name_max_len, Some(64));
}
