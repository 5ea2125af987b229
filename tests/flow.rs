use traffic_rs::flow::{FlowCache, FlowKey, IpAddress};

fn key(n: u32) -> FlowKey {
    FlowKey { src: IpAddress::V4(0x0a00_0000 + n), src_port: 1000, dst: IpAddress::V4(0x0a00_0001), dst_port: 53 }
}

#[test]
fn insert_then_lookup() {
    let mut c = FlowCache::new();
    assert_eq!(c.lookup(&key(1)), None);
    c.insert(key(1), 10);
    assert_eq!(c.lookup(&key(1)), Some(10));
    c.insert(key(1), 25);
    assert_eq!(c.lookup(&key(1)), Some(25));
    assert_eq!(c.len(), 1);
    assert_eq!(c.lookup(&key(1).reverse()), None);
}

#[test]
fn reverse_swaps_endpoints() {
    let k = key(7);
    let r = k.reverse();
    assert_eq!(r.src, k.dst);
    assert_eq!(r.dst, k.src);
    assert_eq!(r.src_port, k.dst_port);
    assert_eq!(r.dst_port, k.src_port);
    assert_eq!(r.reverse(), k);
}

#[test]
fn v4_and_v6_keys_differ() {
    let mut c = FlowCache::new();
    let a = FlowKey { src: IpAddress::V4(1), src_port: 1, dst: IpAddress::V4(2), dst_port: 2 };
    let b = FlowKey { src: IpAddress::V6(1), src_port: 1, dst: IpAddress::V6(2), dst_port: 2 };
    c.insert(a, 5);
    assert_eq!(c.lookup(&b), None);
}

#[test]
fn no_sweep_at_or_below_the_limit() {
    let mut c = FlowCache::new();
    for n in 0..4096 {
        c.record(key(n), 0);
    }
    assert_eq!(c.len(), 4096);
    c.maybe_evict(1_000_000);
    assert_eq!(c.len(), 4096);
}

#[test]
fn crossing_the_limit_sweeps_old_entries() {
    let mut c = FlowCache::new();
    for n in 0..4096 {
        c.record(key(n), 1000 + (n as u64 % 2) * 2000);
    }
    assert_eq!(c.len(), 4096);
    // At 5000 ms the entries seen at 1000 are 4 s old, those at 3000 exactly 2 s old.
    c.record(key(5000), 5000);
    assert_eq!(c.len(), 2049);
    assert_eq!(c.lookup(&key(0)), None);
    assert_eq!(c.lookup(&key(1)), Some(3000));
    assert_eq!(c.lookup(&key(5000)), Some(5000));
}

#[test]
fn burst_of_fresh_keys_stays_above_the_limit() {
    let mut c = FlowCache::new();
    for n in 0..5000 {
        c.record(key(n), 100);
        assert!(c.len() as u32 <= n + 1);
    }
    assert_eq!(c.len(), 5000);
}
