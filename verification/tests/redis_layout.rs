use manifold::protocol::{ClientInfo, StreamPosition};
use manifold::redis::{
    control_channel, data_channel, data_pattern, decode_position, encode_position, entry_id,
    entry_offset, epoch_mismatch, idempotency_expiry, key, presence_expire_at, presence_from,
    presence_keep_secs, range_start, recovered_from_range, route, stored_offset, Incoming,
    epoch_mismatch_answer,
};

#[test]
fn key_names() {
    assert_eq!(key("socket", "seq", "chat:1"), "socket:seq:chat:1");
    assert_eq!(data_channel("socket", "chat:1"), "socket:ch:chat:1");
    assert_eq!(data_pattern("socket"), "socket:ch:*");
    assert_eq!(control_channel("socket"), "socket:control");
}

#[test]
fn routing_of_incoming_messages() {
    assert!(matches!(route("socket", "socket:control"), Incoming::Control));
    match route("socket", "socket:ch:chat:room:1") {
        Incoming::Deliver(ch) => assert_eq!(ch, "chat:room:1"),
        Incoming::Control => panic!("data channel taken for control"),
    }
    match route("socket", "elsewhere") {
        Incoming::Deliver(ch) => assert_eq!(ch, "elsewhere"),
        Incoming::Control => panic!("data channel taken for control"),
    }
}

#[test]
fn entry_ids_round_trip() {
    assert_eq!(entry_id(42), "42-0");
    assert_eq!(entry_offset("42-0"), 42);
    assert_eq!(entry_offset("17"), 17);
    assert_eq!(entry_offset("x-0"), 0);
    for o in [0u64, 1, 99, u64::MAX] {
        assert_eq!(entry_offset(&entry_id(o)), o);
    }
    assert_eq!(range_start(5), "(5-0");
}

#[test]
fn positions_round_trip() {
    let p = StreamPosition { offset: 12, epoch: "18a:b".to_string() };
    let s = encode_position(&p);
    assert_eq!(s, "12:18a:b");
    let back = decode_position(&s).unwrap();
    assert_eq!(back.offset, 12);
    assert_eq!(back.epoch, "18a:b");
    assert!(decode_position("nocolon").is_none());
    assert!(decode_position("x:e").is_none());
}

#[test]
fn recovery_from_a_range() {
    let entries = vec![("3-0".to_string(), vec![3u8]), ("4-0".to_string(), vec![4u8])];
    let r = recovered_from_range(entries, 2, 4, "ep".to_string());
    assert!(r.recovered);
    assert_eq!(r.publications.len(), 2);
    assert_eq!(r.publications[0].offset, 3);
    assert_eq!(r.publications[1].data, vec![4u8]);
    assert_eq!(r.position.offset, 4);
    assert_eq!(r.position.epoch, "ep");
    let gap = recovered_from_range(vec![("9-0".to_string(), vec![])], 2, 9, "ep".to_string());
    assert!(!gap.recovered);
    let cut = vec![("3-0".to_string(), vec![3u8]), ("4-0".to_string(), vec![4u8])];
    let short = recovered_from_range(cut, 2, 6, "ep".to_string());
    assert!(!short.recovered);
    assert_eq!(short.publications.len(), 2);
    assert!(recovered_from_range(vec![], 4, 4, "ep".to_string()).recovered);
    assert!(!recovered_from_range(vec![], 3, 4, "ep".to_string()).recovered);
    let other = epoch_mismatch_answer(7, "ep2".to_string());
    assert!(!other.recovered);
    assert!(other.publications.is_empty());
    assert_eq!(other.position.offset, 7);
    assert_eq!(other.position.epoch, "ep2");
    assert!(epoch_mismatch("a", "b"));
    assert!(!epoch_mismatch("", "b"));
    assert!(!epoch_mismatch("b", "b"));
}

#[test]
fn presence_entries_and_expiry() {
    let info = |u: &str| ClientInfo { user: u.to_string(), client: "c".to_string(), conn_info: vec![], chan_info: vec![] };
    let m = presence_from(vec!["a".into(), "b".into(), "c".into()], vec![Some(info("ua")), None, Some(info("uc"))]);
    assert_eq!(m.len(), 2);
    assert_eq!(m.get("a").unwrap().user, "ua");
    assert!(!m.contains_key("b"));
    let twice = presence_from(vec!["a".into(), "a".into(), "a".into()], vec![Some(info("u1")), Some(info("u2")), None]);
    assert_eq!(twice.len(), 1);
    assert_eq!(twice.get("a").unwrap().user, "u2");
    assert_eq!(presence_expire_at(1000, 60), 1060);
    assert_eq!(presence_keep_secs(60), 120);
    assert_eq!(idempotency_expiry(0), 1);
    assert_eq!(idempotency_expiry(300), 300);
    assert_eq!(stored_offset(Some(5)), 5);
    assert_eq!(stored_offset(None), 0);
}
