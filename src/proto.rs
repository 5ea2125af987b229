//! Protocol tags, directions, classified events and the per-tag lookup tables.
use vstd::prelude::*;

verus! {

/// Closed set of protocol tags that a frame can be classified as.
#[derive(Debug, Clone, Copy, PartialEq, Eq, Structural)]
pub enum Proto {
    Tcp,
    Http,
    Https,
    Ssh,
    Udp,
    Dns,
    Mdns,
    Quic,
    Dhcp,
    Ntp,
    Ssdp,
    Stun,
    Turn,
    Icmp,
    Icmpv6,
    Arp,
    Other,
}

/// Which side of the monitored interface a frame is headed to.
#[derive(Debug, Clone, Copy, PartialEq, Eq, Structural)]
pub enum Direction {
    In,
    Out,
    Undirected,
}

/// One classified frame.
#[derive(Debug, Clone, Copy, PartialEq, Eq, Structural)]
pub struct PacketEvent {
    pub proto: Proto,
    pub direction: Direction,
    pub fast: bool,
}

/// Number of protocol tags.
pub const PROTO_COUNT: usize = 17;

/// Position of a tag in declaration order.
pub open spec fn proto_rank(p: Proto) -> nat {
    match p {
        Proto::Tcp => 0,
        Proto::Http => 1,
        Proto::Https => 2,
        Proto::Ssh => 3,
        Proto::Udp => 4,
        Proto::Dns => 5,
        Proto::Mdns => 6,
        Proto::Quic => 7,
        Proto::Dhcp => 8,
        Proto::Ntp => 9,
        Proto::Ssdp => 10,
        Proto::Stun => 11,
        Proto::Turn => 12,
        Proto::Icmp => 13,
        Proto::Icmpv6 => 14,
        Proto::Arp => 15,
        Proto::Other => 16,
    }
}

/// The tag at a position in declaration order.
pub open spec fn proto_at_rank(i: nat) -> Proto {
    if i == 0 { Proto::Tcp }
    else if i == 1 { Proto::Http }
    else if i == 2 { Proto::Https }
    else if i == 3 { Proto::Ssh }
    else if i == 4 { Proto::Udp }
    else if i == 5 { Proto::Dns }
    else if i == 6 { Proto::Mdns }
    else if i == 7 { Proto::Quic }
    else if i == 8 { Proto::Dhcp }
    else if i == 9 { Proto::Ntp }
    else if i == 10 { Proto::Ssdp }
    else if i == 11 { Proto::Stun }
    else if i == 12 { Proto::Turn }
    else if i == 13 { Proto::Icmp }
    else if i == 14 { Proto::Icmpv6 }
    else if i == 15 { Proto::Arp }
    else { Proto::Other }
}

/// The tag at position `i` of the declaration order.
pub fn proto_from_rank(i: usize) -> (r: Proto)
    requires
        i < PROTO_COUNT,
    ensures
        r == proto_at_rank(i as nat),
        proto_rank(r) == i,
{
    match i {
        0 => Proto::Tcp,
        1 => Proto::Http,
        2 => Proto::Https,
        3 => Proto::Ssh,
        4 => Proto::Udp,
        5 => Proto::Dns,
        6 => Proto::Mdns,
        7 => Proto::Quic,
        8 => Proto::Dhcp,
        9 => Proto::Ntp,
        10 => Proto::Ssdp,
        11 => Proto::Stun,
        12 => Proto::Turn,
        13 => Proto::Icmp,
        14 => Proto::Icmpv6,
        15 => Proto::Arp,
        _ => Proto::Other,
    }
}

/// Well-known TCP ports.
pub open spec fn tcp_port_proto(port: u16) -> Option<Proto> {
    if port == 80 {
        Some(Proto::Http)
    } else if port == 443 {
        Some(Proto::Https)
    } else if port == 22 {
        Some(Proto::Ssh)
    } else {
        None
    }
}

/// Well-known UDP ports.
pub open spec fn udp_port_proto(port: u16) -> Option<Proto> {
    if port == 53 {
        Some(Proto::Dns)
    } else if port == 5353 {
        Some(Proto::Mdns)
    } else if port == 443 {
        Some(Proto::Quic)
    } else if port == 67 || port == 68 {
        Some(Proto::Dhcp)
    } else if port == 123 {
        Some(Proto::Ntp)
    } else if port == 1900 {
        Some(Proto::Ssdp)
    } else if port == 3478 {
        Some(Proto::Stun)
    } else if port == 5349 {
        Some(Proto::Turn)
    } else {
        None
    }
}

/// Maps a TCP port to the application protocol usually spoken on it.
pub fn classify_tcp_port(port: u16) -> (r: Option<Proto>)
    ensures
        r == tcp_port_proto(port),
{
    match port {
        80 => Some(Proto::Http),
        443 => Some(Proto::Https),
        22 => Some(Proto::Ssh),
        _ => None,
    }
}

/// Maps a UDP port to the application protocol usually spoken on it.
pub fn classify_udp_port(port: u16) -> (r: Option<Proto>)
    ensures
        r == udp_port_proto(port),
{
    match port {
        53 => Some(Proto::Dns),
        5353 => Some(Proto::Mdns),
        443 => Some(Proto::Quic),
        67 | 68 => Some(Proto::Dhcp),
        123 => Some(Proto::Ntp),
        1900 => Some(Proto::Ssdp),
        3478 => Some(Proto::Stun),
        5349 => Some(Proto::Turn),
        _ => None,
    }
}

/// Lane group of a tag: 0 for the TCP family, 1 for the UDP family, 2 for control and other.
pub open spec fn lane_of(p: Proto) -> nat {
    match p {
        Proto::Tcp | Proto::Http | Proto::Https | Proto::Ssh => 0,
        Proto::Udp | Proto::Dns | Proto::Mdns | Proto::Quic | Proto::Dhcp | Proto::Ntp
        | Proto::Ssdp | Proto::Stun | Proto::Turn => 1,
        Proto::Icmp | Proto::Icmpv6 | Proto::Arp | Proto::Other => 2,
    }
}

/// The lane group that events of this tag are drawn in.
pub fn proto_lane(proto: Proto) -> (r: usize)
    ensures
        r == lane_of(proto),
        r < 3,
{
    match proto {
        Proto::Tcp | Proto::Http | Proto::Https | Proto::Ssh => 0,
        Proto::Udp | Proto::Dns | Proto::Mdns | Proto::Quic | Proto::Dhcp | Proto::Ntp
        | Proto::Ssdp | Proto::Stun | Proto::Turn => 1,
        Proto::Icmp | Proto::Icmpv6 | Proto::Arp | Proto::Other => 2,
    }
}

/// Text colour of a tag in the glyph display.
pub open spec fn text_color(p: Proto) -> Seq<char> {
    match p {
        Proto::Tcp => "#f38ba8"@,
        Proto::Http => "#f8c176"@,
        Proto::Https => "#d8b4fe"@,
        Proto::Ssh => "#a6e3a1"@,
        Proto::Udp => "#89b4fa"@,
        Proto::Dns => "#8ad6ff"@,
        Proto::Mdns => "#73d4ff"@,
        Proto::Quic => "#66c8ff"@,
        Proto::Dhcp => "#f9e2af"@,
        Proto::Ntp => "#c4d4ff"@,
        Proto::Ssdp => "#fab387"@,
        Proto::Stun => "#7de3c5"@,
        Proto::Turn => "#7ff0b3"@,
        Proto::Icmp => "#a6e3a1"@,
        Proto::Icmpv6 => "#7dd3a4"@,
        Proto::Arp => "#f2b8a1"@,
        Proto::Other => "#cdd6f4"@,
    }
}

/// Hex colour used for a tag's glyphs in the text display.
pub fn proto_color(proto: Proto) -> (r: &'static str)
    ensures
        r@ == text_color(proto),
{
    match proto {
        Proto::Tcp => "#f38ba8",
        Proto::Http => "#f8c176",
        Proto::Https => "#d8b4fe",
        Proto::Ssh => "#a6e3a1",
        Proto::Udp => "#89b4fa",
        Proto::Dns => "#8ad6ff",
        Proto::Mdns => "#73d4ff",
        Proto::Quic => "#66c8ff",
        Proto::Dhcp => "#f9e2af",
        Proto::Ntp => "#c4d4ff",
        Proto::Ssdp => "#fab387",
        Proto::Stun => "#7de3c5",
        Proto::Turn => "#7ff0b3",
        Proto::Icmp => "#a6e3a1",
        Proto::Icmpv6 => "#7dd3a4",
        Proto::Arp => "#f2b8a1",
        Proto::Other => "#cdd6f4",
    }
}

} // verus!
