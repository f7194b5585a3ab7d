use manifold::env::expand_env;
use manifold::strmap::StrMap;
use manifold::text::{
    decimal_string, first_segment, hex_string, parse_u64, split_by, split_once, split_segments,
    strip_prefix,
};

#[test]
fn decimal_and_hex_rendering() {
    assert_eq!(decimal_string(0), "0");
    assert_eq!(decimal_string(42), "42");
    assert_eq!(decimal_string(18446744073709551615), "18446744073709551615");
    assert_eq!(hex_string(255), "ff");
    assert_eq!(hex_string(0), "0");
    assert_eq!(hex_string(0x1a2b), "1a2b");
}

#[test]
fn parse_like_std() {
    assert_eq!(parse_u64("0"), Some(0));
    assert_eq!(parse_u64("12345"), Some(12345));
    assert_eq!(parse_u64("+7"), Some(7));
    assert_eq!(parse_u64("18446744073709551615"), Some(u64::MAX));
    assert_eq!(parse_u64("18446744073709551616"), None);
    assert_eq!(parse_u64(""), None);
    assert_eq!(parse_u64("+"), None);
    assert_eq!(parse_u64("-1"), None);
    assert_eq!(parse_u64("12a"), None);
    assert_eq!(parse_u64(" 1"), None);
    for s in ["0", "+7", "99", "18446744073709551615", "x", "", "1 "] {
        assert_eq!(parse_u64(s), s.parse::<u64>().ok(), "{s}");
    }
}

#[test]
fn parse_reads_back_decimal() {
    for n in [0u64, 1, 9, 10, 4096, u64::MAX] {
        assert_eq!(parse_u64(&decimal_string(n as u128)), Some(n));
    }
}

#[test]
fn splitting_like_std() {
    assert_eq!(split_segments("a:b::c"), vec!["a", "b", "", "c"]);
    assert_eq!(split_segments(""), vec![""]);
    assert_eq!(split_by("x;y", ';'), vec!["x", "y"]);
    assert_eq!(split_once("7:ep:och", ':'), Some(("7".to_string(), "ep:och".to_string())));
    assert_eq!(split_once("none", ':'), None);
    assert_eq!(first_segment("12-0", '-'), "12");
    assert_eq!(first_segment("12", '-'), "12");
    assert_eq!(strip_prefix("socket:ch:room", "socket:ch:"), Some("room".to_string()));
    assert_eq!(strip_prefix("socket", "socket:ch:"), None);
}

fn vars(pairs: &[(&str, &str)]) -> StrMap<String> {
    let mut m = StrMap::new();
    for (k, v) in pairs {
        m.insert(k.to_string(), v.to_string());
    }
    m
}

#[test]
fn expand_env_references() {
    let v = vars(&[("SECRET", "s3"), ("HOST", "db")]);
    assert_eq!(expand_env("a = \"${SECRET}\"", &v), "a = \"s3\"");
    assert_eq!(expand_env("${HOST}:${HOST}", &v), "db:db");
    assert_eq!(expand_env("${MISSING}x", &v), "x");
    assert_eq!(expand_env("$HOST and $ {HOST}", &v), "$HOST and $ {HOST}");
    assert_eq!(expand_env("tail ${HOST", &v), "tail db");
    assert_eq!(expand_env("$", &v), "$");
    assert_eq!(expand_env("plain text", &v), "plain text");
    assert_eq!(expand_env("$${HOST}", &v), "$db");
}

#[test]
fn segments_join_back() {
    for s in ["a:b:c", "", ":", "x::y:"] {
        assert_eq!(split_segments(s).join(":"), s);
    }
}
