use traffic_rs::proto::{classify_tcp_port, classify_udp_port, proto_color, proto_lane, Proto};

#[test]
fn tcp_port_table() {
    assert_eq!(classify_tcp_port(80), Some(Proto::Http));
    assert_eq!(classify_tcp_port(443), Some(Proto::Https));
    assert_eq!(classify_tcp_port(22), Some(Proto::Ssh));
    assert_eq!(classify_tcp_port(8080), None);
}

#[test]
fn udp_port_table() {
    assert_eq!(classify_udp_port(53), Some(Proto::Dns));
    assert_eq!(classify_udp_port(5353), Some(Proto::Mdns));
    assert_eq!(classify_udp_port(443), Some(Proto::Quic));
    assert_eq!(classify_udp_port(67), Some(Proto::Dhcp));
    assert_eq!(classify_udp_port(68), Some(Proto::Dhcp));
    assert_eq!(classify_udp_port(123), Some(Proto::Ntp));
    assert_eq!(classify_udp_port(1900), Some(Proto::Ssdp));
    assert_eq!(classify_udp_port(3478), Some(Proto::Stun));
    assert_eq!(classify_udp_port(5349), Some(Proto::Turn));
    assert_eq!(classify_udp_port(80), None);
}

#[test]
fn lane_groups() {
    for p in [Proto::Tcp, Proto::Http, Proto::Https, Proto::Ssh] {
        assert_eq!(proto_lane(p), 0);
    }
    for p in [Proto::Udp, Proto::Dns, Proto::Mdns, Proto::Quic, Proto::Dhcp, Proto::Ntp, Proto::Ssdp, Proto::Stun, Proto::Turn] {
        assert_eq!(proto_lane(p), 1);
    }
    for p in [Proto::Icmp, Proto::Icmpv6, Proto::Arp, Proto::Other] {
        assert_eq!(proto_lane(p), 2);
    }
}

#[test]
fn text_colors() {
    assert_eq!(proto_color(Proto::Tcp), "#f38ba8");
    assert_eq!(proto_color(Proto::Https), "#d8b4fe");
    assert_eq!(proto_color(Proto::Dns), "#8ad6ff");
    assert_eq!(proto_color(Proto::Other), "#cdd6f4");
}
