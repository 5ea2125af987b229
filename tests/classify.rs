use traffic_rs::classify::Classifier;
use traffic_rs::flow::IpAddress;
use traffic_rs::proto::{Direction, PacketEvent, Proto};

const LOCAL: [u8; 4] = [192, 168, 1, 10];
const REMOTE: [u8; 4] = [93, 184, 216, 34];

fn eth(ethertype: u16, payload: &[u8]) -> Vec<u8> {
    let mut f = vec![0u8; 12];
    f.extend_from_slice(&ethertype.to_be_bytes());
    f.extend_from_slice(payload);
    f
}

fn ipv4(proto: u8, src: [u8; 4], dst: [u8; 4], payload: &[u8]) -> Vec<u8> {
    let total = (20 + payload.len()) as u16;
    let mut p = vec![0x45, 0];
    p.extend_from_slice(&total.to_be_bytes());
    p.extend_from_slice(&[0, 0, 0, 0, 64, proto, 0, 0]);
    p.extend_from_slice(&src);
    p.extend_from_slice(&dst);
    p.extend_from_slice(payload);
    eth(0x0800, &p)
}

fn ipv6(next: u8, src: [u8; 16], dst: [u8; 16], payload: &[u8]) -> Vec<u8> {
    let mut p = vec![0x60, 0, 0, 0];
    p.extend_from_slice(&(payload.len() as u16).to_be_bytes());
    p.extend_from_slice(&[next, 64]);
    p.extend_from_slice(&src);
    p.extend_from_slice(&dst);
    p.extend_from_slice(payload);
    eth(0x86dd, &p)
}

fn tcp(sp: u16, dp: u16, flags: u8, payload_len: usize) -> Vec<u8> {
    let mut s = Vec::new();
    s.extend_from_slice(&sp.to_be_bytes());
    s.extend_from_slice(&dp.to_be_bytes());
    s.extend_from_slice(&[0; 8]);
    s.push(0x50);
    s.push(flags);
    s.extend_from_slice(&[0; 6]);
    s.extend(std::iter::repeat(0xaa).take(payload_len));
    s
}

fn udp(sp: u16, dp: u16, payload_len: usize) -> Vec<u8> {
    let mut s = Vec::new();
    s.extend_from_slice(&sp.to_be_bytes());
    s.extend_from_slice(&dp.to_be_bytes());
    s.extend_from_slice(&((8 + payload_len) as u16).to_be_bytes());
    s.extend_from_slice(&[0, 0]);
    s.extend(std::iter::repeat(0x55).take(payload_len));
    s
}

fn classifier() -> Classifier {
    Classifier::new(vec![IpAddress::V4(u32::from_be_bytes(LOCAL))])
}

fn ev(proto: Proto, direction: Direction, fast: bool) -> PacketEvent {
    PacketEvent { proto, direction, fast }
}

#[test]
fn tcp_syn_to_443_from_local_is_https_outbound_fast() {
    let mut c = classifier();
    let f = ipv4(6, LOCAL, REMOTE, &tcp(50000, 443, 0x02, 0));
    assert_eq!(c.classify(&f, 0), ev(Proto::Https, Direction::Out, true));
}

#[test]
fn udp_dns_small_payload_is_fast_without_cache() {
    let mut c = classifier();
    let f = ipv4(17, LOCAL, REMOTE, &udp(40000, 53, 40));
    let e = c.classify(&f, 0);
    assert_eq!(e.proto, Proto::Dns);
    assert!(e.fast);
    assert_eq!(c.cache_len(), 1);
}

#[test]
fn tcp_fin_and_rst_are_fast_even_with_payload() {
    let mut c = classifier();
    for flags in [0x01u8, 0x04, 0x11, 0x14, 0x03] {
        let f = ipv4(6, REMOTE, LOCAL, &tcp(8080, 40000, flags, 500));
        let e = c.classify(&f, 0);
        assert!(e.fast, "flags {flags:#x}");
        assert_eq!(e.proto, Proto::Tcp);
        assert_eq!(e.direction, Direction::In);
    }
}

#[test]
fn tcp_ack_only_with_bulk_payload_is_not_fast() {
    let mut c = classifier();
    let f = ipv4(6, REMOTE, LOCAL, &tcp(443, 40000, 0x10, 33));
    assert_eq!(c.classify(&f, 0), ev(Proto::Https, Direction::In, false));
}

#[test]
fn tcp_ack_with_small_payload_is_fast() {
    let mut c = classifier();
    let f = ipv4(6, REMOTE, LOCAL, &tcp(22, 40000, 0x10, 32));
    assert_eq!(c.classify(&f, 0), ev(Proto::Ssh, Direction::In, true));
}

#[test]
fn tcp_without_flags_is_not_fast() {
    let mut c = classifier();
    let f = ipv4(6, REMOTE, LOCAL, &tcp(1000, 2000, 0x00, 0));
    assert_eq!(c.classify(&f, 0), ev(Proto::Tcp, Direction::In, false));
}

#[test]
fn tcp_destination_port_wins() {
    let mut c = classifier();
    let f = ipv4(6, LOCAL, REMOTE, &tcp(22, 80, 0x18, 100));
    assert_eq!(c.classify(&f, 0).proto, Proto::Http);
    let f = ipv4(6, LOCAL, REMOTE, &tcp(80, 5555, 0x18, 100));
    assert_eq!(c.classify(&f, 0).proto, Proto::Http);
}

#[test]
fn udp_fast_ports_with_small_payload_are_fast() {
    for port in [53u16, 5353, 443, 3478, 5349, 1900] {
        let mut c = classifier();
        let f = ipv4(17, REMOTE, LOCAL, &udp(port, 40000, 192));
        assert!(c.classify(&f, 0).fast, "port {port}");
        let f = ipv4(17, REMOTE, LOCAL, &udp(40001, port, 193));
        assert!(!c.classify(&f, 10_000).fast, "port {port}");
    }
}

#[test]
fn udp_port_table_and_destination_wins() {
    let mut c = classifier();
    let cases = [
        (53u16, Proto::Dns),
        (5353, Proto::Mdns),
        (443, Proto::Quic),
        (67, Proto::Dhcp),
        (68, Proto::Dhcp),
        (123, Proto::Ntp),
        (1900, Proto::Ssdp),
        (3478, Proto::Stun),
        (5349, Proto::Turn),
        (9999, Proto::Udp),
    ];
    for (i, (port, proto)) in cases.iter().enumerate() {
        let f = ipv4(17, LOCAL, REMOTE, &udp(30000 + i as u16, *port, 500));
        assert_eq!(c.classify(&f, 0).proto, *proto);
    }
    let f = ipv4(17, LOCAL, REMOTE, &udp(53, 123, 500));
    assert_eq!(c.classify(&f, 0).proto, Proto::Ntp);
}

#[test]
fn udp_reply_within_window_is_fast() {
    let mut c = classifier();
    let q = ipv4(17, LOCAL, REMOTE, &udp(40000, 9000, 500));
    let a = ipv4(17, REMOTE, LOCAL, &udp(9000, 40000, 500));
    assert!(!c.classify(&q, 1000).fast);
    assert!(c.classify(&a, 1150).fast);
}

#[test]
fn udp_reply_after_window_is_not_fast() {
    let mut c = classifier();
    let q = ipv4(17, LOCAL, REMOTE, &udp(40000, 9000, 500));
    let a = ipv4(17, REMOTE, LOCAL, &udp(9000, 40000, 500));
    assert!(!c.classify(&q, 1000).fast);
    assert!(!c.classify(&a, 1200).fast);
}

#[test]
fn udp_same_direction_repeat_is_not_fast() {
    let mut c = classifier();
    let q = ipv4(17, LOCAL, REMOTE, &udp(40000, 9000, 500));
    assert!(!c.classify(&q, 1000).fast);
    assert!(!c.classify(&q, 1001).fast);
    assert_eq!(c.cache_len(), 1);
}

#[test]
fn arp_and_unknown_ethertypes() {
    let mut c = classifier();
    assert_eq!(c.classify(&eth(0x0806, &[0; 28]), 0), ev(Proto::Arp, Direction::Undirected, false));
    assert_eq!(c.classify(&eth(0x88cc, &[0; 40]), 0), ev(Proto::Other, Direction::Undirected, false));
}

#[test]
fn malformed_frames_are_other_undirected() {
    let mut c = classifier();
    assert_eq!(c.classify(&[0u8; 5], 0), ev(Proto::Other, Direction::Undirected, false));
    assert_eq!(c.classify(&eth(0x0800, &[0x45; 19]), 0), ev(Proto::Other, Direction::Undirected, false));
    assert_eq!(c.classify(&eth(0x86dd, &[0x60; 39]), 0), ev(Proto::Other, Direction::Undirected, false));
}

#[test]
fn truncated_transport_keeps_base_protocol() {
    let mut c = classifier();
    let f = ipv4(6, REMOTE, LOCAL, &[0u8; 10]);
    assert_eq!(c.classify(&f, 0), ev(Proto::Tcp, Direction::In, false));
    let f = ipv4(17, REMOTE, LOCAL, &[0u8; 7]);
    assert_eq!(c.classify(&f, 0), ev(Proto::Udp, Direction::In, false));
    assert_eq!(c.cache_len(), 0);
}

#[test]
fn icmp_and_other_ip_protocols() {
    let mut c = classifier();
    let f = ipv4(1, REMOTE, LOCAL, &[8, 0, 0, 0, 0, 0, 0, 0]);
    assert_eq!(c.classify(&f, 0), ev(Proto::Icmp, Direction::In, false));
    let f = ipv4(47, LOCAL, REMOTE, &[0u8; 30]);
    assert_eq!(c.classify(&f, 0), ev(Proto::Other, Direction::Out, false));
}

#[test]
fn ipv6_direction_and_icmpv6() {
    let mut local6 = [0u8; 16];
    local6[0] = 0xfe;
    local6[1] = 0x80;
    local6[15] = 1;
    let mut remote6 = [0u8; 16];
    remote6[0] = 0x20;
    remote6[1] = 0x01;
    remote6[15] = 9;
    let mut c = Classifier::new(vec![IpAddress::V6(u128::from_be_bytes(local6))]);
    let f = ipv6(58, remote6, local6, &[128, 0, 0, 0]);
    assert_eq!(c.classify(&f, 0), ev(Proto::Icmpv6, Direction::In, false));
    let f = ipv6(6, local6, remote6, &tcp(40000, 443, 0x02, 0));
    assert_eq!(c.classify(&f, 0), ev(Proto::Https, Direction::Out, true));
    let f = ipv6(17, remote6, local6, &udp(5353, 5353, 100));
    assert_eq!(c.classify(&f, 0), ev(Proto::Mdns, Direction::In, true));
}

#[test]
fn ipv4_payload_is_bounded_by_total_length() {
    let mut c = classifier();
    // A TCP segment followed by Ethernet padding: the padding is not payload.
    let mut f = ipv4(6, REMOTE, LOCAL, &tcp(443, 40000, 0x10, 0));
    f.extend_from_slice(&[0u8; 40]);
    assert!(c.classify(&f, 0).fast);
}

#[test]
fn identical_sequences_classify_identically_from_a_clear_cache() {
    let frames = vec![
        (ipv4(17, LOCAL, REMOTE, &udp(40000, 9000, 500)), 10u64),
        (ipv4(17, REMOTE, LOCAL, &udp(9000, 40000, 500)), 100),
        (ipv4(6, LOCAL, REMOTE, &tcp(1, 2, 0x10, 100)), 120),
        (eth(0x0806, &[0; 28]), 130),
        (ipv4(17, REMOTE, LOCAL, &udp(9000, 40000, 500)), 400),
    ];
    let run = |frames: &Vec<(Vec<u8>, u64)>| {
        let mut c = classifier();
        frames.iter().map(|(f, t)| c.classify(f, *t)).collect::<Vec<_>>()
    };
    let a = run(&frames);
    let b = run(&frames);
    assert_eq!(a, b);
    assert_eq!(a.iter().map(|e| e.fast).collect::<Vec<_>>(), vec![false, true, false, false, false]);
}
