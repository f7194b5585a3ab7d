use manifold::broker::{pub_push, BrokerError, MemoryBroker, Stream};
use manifold::protocol::{ClientInfo, PushEvent, ReplyPayload, StreamPosition};

fn pos(offset: u64, epoch: &str) -> StreamPosition {
    StreamPosition { offset, epoch: epoch.to_string() }
}

#[test]
fn stream_numbers_and_keeps_last_history() {
    let mut s = Stream::new("e1".to_string());
    for i in 1..=5u8 {
        let p = s.publish(vec![i], None, false, 3);
        assert_eq!(p.offset, i as u64);
    }
    assert_eq!(s.position().offset, 5);
    let r = s.recover(&pos(0, ""), 100);
    let offsets: Vec<u64> = r.publications.iter().map(|p| p.offset).collect();
    assert_eq!(offsets, vec![3, 4, 5]);
    assert!(!r.recovered, "offsets 1 and 2 fell out of history");
    let r = s.recover(&pos(2, "e1"), 100);
    assert!(r.recovered);
    assert_eq!(r.publications.len(), 3);
    let r = s.recover(&pos(3, "e1"), 1);
    assert_eq!(r.publications.len(), 1);
    assert_eq!(r.publications[0].offset, 4);
}

#[test]
fn non_recoverable_publications_leave_the_stream() {
    let mut s = Stream::new("e".to_string());
    let p = s.publish(vec![1], None, true, 10);
    assert_eq!(p.offset, 0);
    let q = s.publish(vec![2], None, false, 0);
    assert_eq!(q.offset, 0);
    assert_eq!(s.position().offset, 0);
    assert!(s.recover(&pos(0, "e"), 10).publications.is_empty());
}

#[test]
fn recovery_from_another_epoch_is_refused() {
    let mut s = Stream::new("e".to_string());
    s.publish(vec![1], None, false, 10);
    let r = s.recover(&pos(0, "other"), 10);
    assert!(!r.recovered);
    assert!(r.publications.is_empty());
    assert_eq!(r.position.offset, 1);
    assert_eq!(r.position.epoch, "e");
}

#[test]
fn memory_broker_channels() {
    let mut b = MemoryBroker::new();
    let p0 = b.ensure_epoch("c");
    assert_eq!(p0.offset, 0);
    assert!(!p0.epoch.is_empty());
    let (p1, publication) = b.publish("c", vec![9], None, false, 10);
    assert_eq!(p1.offset, 1);
    assert_eq!(p1.epoch, p0.epoch);
    assert_eq!(publication.data, vec![9]);
    assert_eq!(b.offset_of("c"), Some(1));
    assert_eq!(b.offset_of("none"), None);
    let r = b.recover("none", &pos(0, ""), 10);
    assert!(r.recovered);
    assert_eq!(r.position.offset, 0);
    let info = ClientInfo { user: "u".into(), client: "c1".into(), conn_info: vec![], chan_info: vec![] };
    b.presence_add("c", "c1", info, 60);
    assert_eq!(b.presence_list("c").len(), 1);
    b.presence_remove("c", "c1");
    assert_eq!(b.presence_list("c").len(), 0);
    assert!(b.idempotency_get("k").is_none());
    b.idempotency_put("k", &p1, 300);
    assert_eq!(b.idempotency_get("k").unwrap().offset, 1);
}

#[test]
fn publication_push_and_errors() {
    let mut s = Stream::new("e".to_string());
    let p = s.publish(vec![7], None, false, 1);
    let r = pub_push("chat:1", p);
    assert_eq!(r.id, 0);
    match r.payload {
        Some(ReplyPayload::Push(push)) => {
            assert_eq!(push.channel, "chat:1");
            assert!(matches!(push.event, Some(PushEvent::Pub(_))));
        }
        _ => panic!("not a push"),
    }
    assert_eq!(BrokerError::Redis("down".into()).message(), "redis: down");
    assert_eq!(BrokerError::Decode("bad".into()).message(), "decode: bad");
}

#[test]
fn epochs_are_hex_times() {
    let e = manifold::broker::new_epoch();
    assert!(!e.is_empty());
    assert!(e.chars().all(|c| c.is_ascii_hexdigit()));
}

#[test]
fn history_holds_the_last_recoverable_publishes() {
    let mut b = MemoryBroker::new();
    let mut n = 0u64;
    for i in 1..=7u8 {
        let transient = i % 3 == 0;
        let (p, _) = b.publish("c", vec![i], None, transient, 3);
        if !transient {
            n += 1;
            assert_eq!(p.offset, n);
        } else {
            assert_eq!(p.offset, 0);
        }
    }
    assert_eq!(n, 5);
    let r = b.recover("c", &pos(0, ""), 100);
    let offsets: Vec<u64> = r.publications.iter().map(|p| p.offset).collect();
    assert_eq!(offsets, vec![3, 4, 5]);
    let data: Vec<Vec<u8>> = r.publications.iter().map(|p| p.data.clone()).collect();
    assert_eq!(data, vec![vec![4u8], vec![5u8], vec![7u8]]);
    assert_eq!(r.position.offset, 5);
    let r = b.recover("c", &pos(2, ""), 100);
    assert!(r.recovered);
    assert_eq!(r.publications.len(), 3);
}
