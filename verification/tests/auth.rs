use manifold::auth::{glob_match, ChannelGrant, Claims};

#[test]
fn star_one_segment() {
    assert!(glob_match("news:*", "news:sports"));
    assert!(!glob_match("news:*", "news:sports:football"));
}

#[test]
fn globstar_any() {
    assert!(glob_match("news:**", "news:sports"));
    assert!(glob_match("news:**", "news:sports:football"));
    assert!(glob_match("user:123:**", "user:123:notifications:push"));
}

#[test]
fn exact() {
    assert!(glob_match("chat:room:42", "chat:room:42"));
    assert!(!glob_match("chat:room:42", "chat:room:43"));
}

#[test]
fn globstar_matches_zero_segments() {
    assert!(glob_match("news:**", "news"));
    assert!(glob_match("**", "anything:at:all"));
    assert!(glob_match("a:**:z", "a:z"));
    assert!(glob_match("a:**:z", "a:b:c:z"));
    assert!(!glob_match("a:**:z", "a:b:c"));
}

#[test]
fn star_needs_a_segment() {
    assert!(!glob_match("news:*", "news"));
    assert!(glob_match("*:room", "chat:room"));
    assert!(glob_match("news:*", "news:"));
}

#[test]
fn literal_pattern_matches_only_itself() {
    assert!(glob_match("", ""));
    assert!(!glob_match("chat", "chat:room"));
    assert!(!glob_match("chat:room", "chat"));
}

fn claims(pattern: &str, allow: &[&str]) -> Claims {
    Claims {
        sub: "u".to_string(),
        exp: None,
        channels: vec![ChannelGrant {
            pattern: pattern.to_string(),
            allow: allow.iter().map(|s| s.to_string()).collect(),
        }],
    }
}

#[test]
fn claims_allow_by_grant_and_action() {
    let c = claims("chat:room:*", &["sub", "pub"]);
    assert!(c.allows("chat:room:1", "sub"));
    assert!(c.allows("chat:room:1", "pub"));
    assert!(!c.allows("chat:room:1", "history"));
    assert!(!c.allows("chat:lobby:1", "sub"));
}

#[test]
fn claims_without_grants_allow_nothing() {
    let c = Claims { sub: "u".to_string(), exp: None, channels: vec![] };
    assert!(!c.allows("chat:room:1", "sub"));
}

#[test]
fn any_grant_may_allow() {
    let c = Claims {
        sub: "u".to_string(),
        exp: Some(10),
        channels: vec![
            ChannelGrant { pattern: "news:*".to_string(), allow: vec!["sub".to_string()] },
            ChannelGrant { pattern: "chat:**".to_string(), allow: vec!["pub".to_string()] },
        ],
    };
    assert!(c.allows("news:sports", "sub"));
    assert!(!c.allows("news:sports", "pub"));
    assert!(c.allows("chat:a:b", "pub"));
}
