use manifold::loadtest::{
    latency_us, payload_stamp, per_tick, publisher_seed, rate_per_publisher, stamped_payload,
    subscriber_channels, subscriber_seed, xs, Pool,
};

#[test]
fn xorshift_steps() {
    let mut s = 1u64;
    let a = xs(&mut s);
    assert_eq!(a, s);
    let mut x = 1u64;
    x ^= x << 13;
    x ^= x >> 7;
    x ^= x << 17;
    assert_eq!(a, x);
    let mut t = 0x9E37_79B9_7F4A_7C15u64;
    for _ in 0..1000 {
        assert_ne!(xs(&mut t), 0);
    }
}

#[test]
fn pool_names() {
    let pool = Pool { namespaces: 3, per_ns: 4 };
    assert_eq!(pool.total(), 12);
    assert_eq!(pool.name(0), "ns0:c0");
    assert_eq!(pool.name(5), "ns1:c1");
    assert_eq!(pool.name(11), "ns2:c3");
    assert_eq!(pool.name(12), "ns0:c0");
    let empty = Pool { namespaces: 0, per_ns: 5 };
    assert_eq!(empty.total(), 1);
    let mut names: Vec<String> = (0..12).map(|i| pool.name(i)).collect();
    names.sort();
    names.dedup();
    assert_eq!(names.len(), 12);
}

#[test]
fn seeds_and_subscriber_channels() {
    assert_eq!(subscriber_seed(0), 1);
    assert_eq!(subscriber_seed(1), 2654435761u64.wrapping_add(1) | 1);
    assert_eq!(publisher_seed(0), 12_345);
    let pool = Pool { namespaces: 2, per_ns: 3 };
    for i in 0..50 {
        let chans = subscriber_channels(&pool, i, 2, 5);
        assert!(chans.len() >= 2 && chans.len() <= 5);
        for c in &chans {
            assert!(c.starts_with("ns"));
        }
    }
}

#[test]
fn pacing() {
    assert_eq!(per_tick(0), u64::MAX);
    assert_eq!(per_tick(50), 1);
    assert_eq!(per_tick(1000), 10);
    assert_eq!(rate_per_publisher(0, 0), 0);
    assert_eq!(rate_per_publisher(100, 8), 12);
    assert_eq!(rate_per_publisher(3, 8), 1);
}

#[test]
fn payload_timestamps() {
    let data = stamped_payload(16, 0x0102_0304_0506_0708);
    assert_eq!(data.len(), 16);
    assert_eq!(&data[..8], &0x0102_0304_0506_0708u64.to_le_bytes());
    assert!(data[8..].iter().all(|b| *b == 0));
    assert_eq!(payload_stamp(&data), Some(0x0102_0304_0506_0708));
    assert_eq!(stamped_payload(3, 9).len(), 8);
    assert_eq!(payload_stamp(&vec![1, 2, 3]), None);
    assert_eq!(latency_us(5_000_000, 1_000_000), 4_000);
    assert_eq!(latency_us(1, 2), 0);
    assert_eq!(latency_us(u64::MAX, 0), 60_000_000);
}
