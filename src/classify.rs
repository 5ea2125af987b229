//! The packet classifier: one frame in, one `(protocol, direction, fast)` event out.
use vstd::prelude::*;

use crate::flow::{
    flow_lookup, flow_record, keys_distinct, lemma_record_then_lookup, reversed, FlowCache,
    FlowKey, IpAddress,
};
use crate::packet::{
    be128, be16, be32, ipv4_payload, ipv4_payload_bounds, ipv6_payload, ipv6_payload_bounds,
    read_be128, read_be16, read_be32, span_bytes, tcp_payload, tcp_payload_len, udp_payload_len,
    Span, ETHERNET_HEADER_LEN, ETHERTYPE_ARP, ETHERTYPE_IPV4, ETHERTYPE_IPV6, IPV4_MIN_HEADER_LEN,
    IPV6_HEADER_LEN, IP_PROTO_ICMP, IP_PROTO_ICMPV6, IP_PROTO_TCP, IP_PROTO_UDP, TCP_MIN_HEADER_LEN,
    UDP_HEADER_LEN,
};
use crate::proto::{
    classify_tcp_port, classify_udp_port, tcp_port_proto, udp_port_proto, Direction, PacketEvent,
    Proto,
};

verus! {

/// Two UDP frames of one conversation closer than this, in milliseconds, make a fast pair.
pub const FAST_UDP_WINDOW_MS: u64 = 150;

/// Largest UDP payload, in bytes, that counts as fast on a fast port.
pub const FAST_UDP_MAX_PAYLOAD: usize = 192;

/// Largest TCP payload, in bytes, that makes a bare acknowledgement fast.
pub const FAST_TCP_MAX_PAYLOAD: usize = 32;

/// UDP ports whose small datagrams are control traffic.
pub open spec fn udp_fast_port(port: u16) -> bool {
    port == 53 || port == 5353 || port == 443 || port == 3478 || port == 5349 || port == 1900
}

pub fn is_udp_fast_port(port: u16) -> (r: bool)
    ensures
        r == udp_fast_port(port),
{
    port == 53 || port == 5353 || port == 443 || port == 3478 || port == 5349 || port == 1900
}

/// The least informative classification, given to anything that cannot be read.
pub open spec fn unreadable_event() -> PacketEvent {
    PacketEvent { proto: Proto::Other, direction: Direction::Undirected, fast: false }
}

pub open spec fn arp_event() -> PacketEvent {
    PacketEvent { proto: Proto::Arp, direction: Direction::Undirected, fast: false }
}

/// SYN, FIN or RST, or an ACK with at most 32 bytes of payload.
pub open spec fn tcp_fast(flags: u8, payload_len: int) -> bool {
    (flags & 0x02) != 0 || (flags & 0x01) != 0 || (flags & 0x04) != 0 || ((flags & 0x10) != 0
        && payload_len <= FAST_TCP_MAX_PAYLOAD)
}

/// A port match overrides `base`; the destination port is applied last and wins.
pub open spec fn tcp_overlay(base: Proto, src_port: u16, dst_port: u16) -> Proto {
    let p = match tcp_port_proto(src_port) {
        Some(q) => q,
        None => base,
    };
    match tcp_port_proto(dst_port) {
        Some(q) => q,
        None => p,
    }
}

pub open spec fn udp_overlay(base: Proto, src_port: u16, dst_port: u16) -> Proto {
    let p = match udp_port_proto(src_port) {
        Some(q) => q,
        None => base,
    };
    match udp_port_proto(dst_port) {
        Some(q) => q,
        None => p,
    }
}

/// The reverse direction of this conversation was recorded at most 150 ms before `now`.
pub open spec fn reply_seen(cache: Seq<(FlowKey, u64)>, key: FlowKey, now: u64) -> bool {
    match flow_lookup(cache, reversed(key)) {
        Some(t) => now <= t + FAST_UDP_WINDOW_MS,
        None => false,
    }
}

/// A small datagram on a fast port.
pub open spec fn udp_port_fast(src_port: u16, dst_port: u16, payload_len: int) -> bool {
    payload_len <= FAST_UDP_MAX_PAYLOAD && (udp_fast_port(dst_port) || udp_fast_port(src_port))
}

/// What the network layer of a frame says: the base protocol from the next-header
/// number, the two addresses, and the transport segment.
pub struct IpLayer {
    pub base: Proto,
    pub src: IpAddress,
    pub dst: IpAddress,
    pub segment: Seq<u8>,
}

pub open spec fn ipv4_base(next: u8) -> Proto {
    if next == IP_PROTO_TCP {
        Proto::Tcp
    } else if next == IP_PROTO_UDP {
        Proto::Udp
    } else if next == IP_PROTO_ICMP {
        Proto::Icmp
    } else {
        Proto::Other
    }
}

pub open spec fn ipv6_base(next: u8) -> Proto {
    if next == IP_PROTO_TCP {
        Proto::Tcp
    } else if next == IP_PROTO_UDP {
        Proto::Udp
    } else if next == IP_PROTO_ICMPV6 {
        Proto::Icmpv6
    } else {
        Proto::Other
    }
}

/// The network layer of an Ethernet frame, when it is an IPv4 or IPv6 packet whose
/// fixed header fits in the frame.
pub open spec fn ip_layer(f: Seq<u8>) -> Option<IpLayer> {
    if f.len() < ETHERNET_HEADER_LEN {
        None
    } else {
        let p = f.subrange(ETHERNET_HEADER_LEN as int, f.len() as int);
        let et = be16(f, 12);
        if et == ETHERTYPE_IPV4 && p.len() >= IPV4_MIN_HEADER_LEN {
            let b = ipv4_payload_bounds(p);
            Some(
                IpLayer {
                    base: ipv4_base(p[9]),
                    src: IpAddress::V4(be32(p, 12)),
                    dst: IpAddress::V4(be32(p, 16)),
                    segment: p.subrange(b.0, b.1),
                },
            )
        } else if et == ETHERTYPE_IPV6 && p.len() >= IPV6_HEADER_LEN {
            let b = ipv6_payload_bounds(p);
            Some(
                IpLayer {
                    base: ipv6_base(p[6]),
                    src: IpAddress::V6(be128(p, 8)),
                    dst: IpAddress::V6(be128(p, 24)),
                    segment: p.subrange(b.0, b.1),
                },
            )
        } else {
            None
        }
    }
}

/// Inbound when the destination is one of the interface's own addresses.
pub open spec fn direction_of(locals: Seq<IpAddress>, dst: IpAddress) -> Direction {
    if locals.contains(dst) {
        Direction::In
    } else {
        Direction::Out
    }
}

/// The UDP flow key of a datagram carried by `ip`.
pub open spec fn udp_key(ip: IpLayer) -> FlowKey {
    FlowKey {
        src: ip.src,
        src_port: be16(ip.segment, 0),
        dst: ip.dst,
        dst_port: be16(ip.segment, 2),
    }
}

/// Classification of frame `f` at time `now`, given the interface's addresses and
/// the flow cache; with the flow cache as it is afterwards. Only a readable UDP
/// datagram changes the cache: its own key is recorded.
pub open spec fn classify_frame(
    f: Seq<u8>,
    locals: Seq<IpAddress>,
    cache: Seq<(FlowKey, u64)>,
    now: u64,
) -> (PacketEvent, Seq<(FlowKey, u64)>) {
    if f.len() >= ETHERNET_HEADER_LEN && be16(f, 12) == ETHERTYPE_ARP {
        (arp_event(), cache)
    } else {
        match ip_layer(f) {
            None => (unreadable_event(), cache),
            Some(ip) => {
                let dir = direction_of(locals, ip.dst);
                let s = ip.segment;
                if ip.base == Proto::Tcp && s.len() >= TCP_MIN_HEADER_LEN {
                    let ev = PacketEvent {
                        proto: tcp_overlay(ip.base, be16(s, 0), be16(s, 2)),
                        direction: dir,
                        fast: tcp_fast(s[13], tcp_payload_len(s)),
                    };
                    (ev, cache)
                } else if ip.base == Proto::Udp && s.len() >= UDP_HEADER_LEN {
                    let key = udp_key(ip);
                    let ev = PacketEvent {
                        proto: udp_overlay(ip.base, key.src_port, key.dst_port),
                        direction: dir,
                        fast: reply_seen(cache, key, now) || udp_port_fast(
                            key.src_port,
                            key.dst_port,
                            udp_payload_len(s),
                        ),
                    };
                    (ev, flow_record(cache, key, now))
                } else {
                    (PacketEvent { proto: ip.base, direction: dir, fast: false }, cache)
                }
            },
        }
    }
}

/// Classifies frames for one interface. Holds the interface's addresses, taken once
/// when it is made, and the flow cache, which only it uses.
pub struct Classifier {
    locals: Vec<IpAddress>,
    cache: FlowCache,
}

impl Classifier {
    pub closed spec fn locals(&self) -> Seq<IpAddress> {
        self.locals@
    }

    pub closed spec fn cache(&self) -> Seq<(FlowKey, u64)> {
        self.cache@
    }

    pub closed spec fn wf(&self) -> bool {
        self.cache.wf()
    }

    /// A classifier for an interface with these addresses, with an empty flow cache.
    pub fn new(local_addrs: Vec<IpAddress>) -> (r: Classifier)
        ensures
            r.wf(),
            r.locals() == local_addrs@,
            r.cache() == Seq::<(FlowKey, u64)>::empty(),
    {
        Classifier { locals: local_addrs, cache: FlowCache::new() }
    }

    /// Number of flow keys the cache holds.
    pub fn cache_len(&self) -> (r: usize)
        ensures
            r == self.cache().len(),
    {
        self.cache.len()
    }

    fn is_local(&self, a: IpAddress) -> (r: bool)
        ensures
            r == self.locals().contains(a),
    {
        let n = self.locals.len();
        let mut i: usize = 0;
        while i < n
            invariant
                n == self.locals@.len(),
                i <= n,
                forall|j: int| 0 <= j < i ==> self.locals@[j] != a,
            decreases n - i,
        {
            if self.locals[i] == a {
                assert(self.locals@[i as int] == a);
                return true;
            }
            i += 1;
        }
        false
    }

    /// Classifies one link-layer frame seen at `now_ms`, a reading of a monotonic clock
    /// in milliseconds. Never fails: what cannot be read is `(Other, Undirected, false)`.
    pub fn classify(&mut self, frame: &[u8], now_ms: u64) -> (r: PacketEvent)
        requires
            old(self).wf(),
        ensures
            final(self).wf(),
            final(self).locals() == old(self).locals(),
            (r, final(self).cache()) == classify_frame(
                frame@,
                old(self).locals(),
                old(self).cache(),
                now_ms,
            ),
    {
        let ghost f = frame@;
        let other = PacketEvent { proto: Proto::Other, direction: Direction::Undirected, fast: false };
        let n = frame.len();
        if n < ETHERNET_HEADER_LEN {
            return other;
        }
        let et = read_be16(frame, 12);
        if et == ETHERTYPE_ARP {
            return PacketEvent { proto: Proto::Arp, direction: Direction::Undirected, fast: false };
        }
        let ip = Span { start: ETHERNET_HEADER_LEN, end: n };
        let ghost p = f.subrange(ETHERNET_HEADER_LEN as int, f.len() as int);
        assert(span_bytes(f, ip) == p);
        let base: Proto;
        let src: IpAddress;
        let dst: IpAddress;
        let seg: Span;
        if et == ETHERTYPE_IPV4 && n - ETHERNET_HEADER_LEN >= IPV4_MIN_HEADER_LEN {
            let next = frame[ETHERNET_HEADER_LEN + 9];
            base = if next == IP_PROTO_TCP {
                Proto::Tcp
            } else if next == IP_PROTO_UDP {
                Proto::Udp
            } else if next == IP_PROTO_ICMP {
                Proto::Icmp
            } else {
                Proto::Other
            };
            src = IpAddress::V4(read_be32(frame, ETHERNET_HEADER_LEN + 12));
            dst = IpAddress::V4(read_be32(frame, ETHERNET_HEADER_LEN + 16));
            seg = ipv4_payload(frame, ip);
            proof {
                assert(p[9] == next);
                assert(be32(p, 12) == be32(f, 26));
                assert(be32(p, 16) == be32(f, 30));
            }
        } else if et == ETHERTYPE_IPV6 && n - ETHERNET_HEADER_LEN >= IPV6_HEADER_LEN {
            let next = frame[ETHERNET_HEADER_LEN + 6];
            base = if next == IP_PROTO_TCP {
                Proto::Tcp
            } else if next == IP_PROTO_UDP {
                Proto::Udp
            } else if next == IP_PROTO_ICMPV6 {
                Proto::Icmpv6
            } else {
                Proto::Other
            };
            src = IpAddress::V6(read_be128(frame, ETHERNET_HEADER_LEN + 8));
            dst = IpAddress::V6(read_be128(frame, ETHERNET_HEADER_LEN + 24));
            seg = ipv6_payload(frame, ip);
            proof {
                assert(p[6] == next);
                assert(be128(p, 8) == be128(f, 22));
                assert(be128(p, 24) == be128(f, 38));
            }
        } else {
            return other;
        }
        let ghost layer = ip_layer(f)->Some_0;
        assert(span_bytes(f, seg) == layer.segment);
        let ghost s = layer.segment;
        let direction = if self.is_local(dst) {
            Direction::In
        } else {
            Direction::Out
        };
        let seg_len = seg.end - seg.start;
        if base == Proto::Tcp && seg_len >= TCP_MIN_HEADER_LEN {
            let sp = read_be16(frame, seg.start);
            let dp = read_be16(frame, seg.start + 2);
            let flags = frame[seg.start + 13];
            let payload_len = tcp_payload(frame, seg);
            proof {
                assert(be16(s, 0) == sp);
                assert(be16(s, 2) == dp);
                assert(s[13] == flags);
            }
            let syn = flags & 0x02 != 0;
            let fin = flags & 0x01 != 0;
            let rst = flags & 0x04 != 0;
            let ack = flags & 0x10 != 0;
            let fast = syn || fin || rst || (ack && payload_len <= FAST_TCP_MAX_PAYLOAD);
            let mut proto = base;
            if let Some(q) = classify_tcp_port(sp) {
                proto = q;
            }
            if let Some(q) = classify_tcp_port(dp) {
                proto = q;
            }
            PacketEvent { proto, direction, fast }
        } else if base == Proto::Udp && seg_len >= UDP_HEADER_LEN {
            let sp = read_be16(frame, seg.start);
            let dp = read_be16(frame, seg.start + 2);
            proof {
                assert(be16(s, 0) == sp);
                assert(be16(s, 2) == dp);
            }
            let key = FlowKey { src, src_port: sp, dst, dst_port: dp };
            let rev = key.reverse();
            let mut fast = match self.cache.lookup(&rev) {
                Some(prev) => prev >= now_ms || now_ms - prev <= FAST_UDP_WINDOW_MS,
                None => false,
            };
            let payload_len = seg_len - UDP_HEADER_LEN;
            let port_hit = is_udp_fast_port(dp) || is_udp_fast_port(sp);
            if payload_len <= FAST_UDP_MAX_PAYLOAD && port_hit {
                fast = true;
            }
            let mut proto = base;
            if let Some(q) = classify_udp_port(sp) {
                proto = q;
            }
            if let Some(q) = classify_udp_port(dp) {
                proto = q;
            }
            self.cache.record(key, now_ms);
            PacketEvent { proto, direction, fast }
        } else {
            PacketEvent { proto: base, direction, fast: false }
        }
    }
}

/// The TCP segment of a frame that carries one whose header fits.
pub open spec fn tcp_segment(f: Seq<u8>) -> Option<Seq<u8>> {
    match ip_layer(f) {
        Some(ip) => if ip.base == Proto::Tcp && ip.segment.len() >= TCP_MIN_HEADER_LEN {
            Some(ip.segment)
        } else {
            None
        },
        None => None,
    }
}

/// The network layer of a frame that carries a UDP datagram whose header fits.
pub open spec fn udp_datagram(f: Seq<u8>) -> Option<IpLayer> {
    match ip_layer(f) {
        Some(ip) => if ip.base == Proto::Udp && ip.segment.len() >= UDP_HEADER_LEN {
            Some(ip)
        } else {
            None
        },
        None => None,
    }
}

/// A TCP segment with SYN, FIN or RST set is fast, whatever else it holds.
pub proof fn lemma_tcp_control_flags_fast(
    f: Seq<u8>,
    locals: Seq<IpAddress>,
    cache: Seq<(FlowKey, u64)>,
    now: u64,
)
    requires
        tcp_segment(f) matches Some(s) && ((s[13] & 0x02) != 0 || (s[13] & 0x01) != 0 || (s[13]
            & 0x04) != 0),
    ensures
        classify_frame(f, locals, cache, now).0.fast,
{
}

/// A TCP segment with only ACK set and more than 32 bytes of payload is not fast.
pub proof fn lemma_tcp_bulk_ack_not_fast(
    f: Seq<u8>,
    locals: Seq<IpAddress>,
    cache: Seq<(FlowKey, u64)>,
    now: u64,
)
    requires
        tcp_segment(f) matches Some(s) && s[13] == 0x10 && tcp_payload_len(s)
            > FAST_TCP_MAX_PAYLOAD,
    ensures
        !classify_frame(f, locals, cache, now).0.fast,
{
    assert((0x10u8 & 0x02u8) == 0 && (0x10u8 & 0x01u8) == 0 && (0x10u8 & 0x04u8) == 0)
        by (bit_vector);
}

/// A UDP datagram of at most 192 payload bytes with a fast port on either end is
/// fast, whatever the flow cache holds.
pub proof fn lemma_udp_fast_port_fast(
    f: Seq<u8>,
    locals: Seq<IpAddress>,
    cache: Seq<(FlowKey, u64)>,
    now: u64,
)
    requires
        udp_datagram(f) matches Some(ip) && udp_payload_len(ip.segment) <= FAST_UDP_MAX_PAYLOAD
            && (udp_fast_port(be16(ip.segment, 0)) || udp_fast_port(be16(ip.segment, 2))),
    ensures
        classify_frame(f, locals, cache, now).0.fast,
{
}

/// Of two UDP datagrams of one conversation, the answer (the second, in the reverse
/// direction) is fast when it comes at most 150 ms after the first. When it comes
/// later, the pairing rule does not fire, and only the port rule can make it fast.
pub proof fn lemma_udp_reply_pairing(
    f1: Seq<u8>,
    t1: u64,
    f2: Seq<u8>,
    t2: u64,
    locals: Seq<IpAddress>,
    cache: Seq<(FlowKey, u64)>,
)
    requires
        keys_distinct(cache),
        udp_datagram(f1) is Some,
        udp_datagram(f2) is Some,
        udp_key(udp_datagram(f2)->Some_0) == reversed(udp_key(udp_datagram(f1)->Some_0)),
        t1 <= t2,
    ensures
        ({
            let c1 = classify_frame(f1, locals, cache, t1).1;
            let k2 = udp_key(udp_datagram(f2)->Some_0);
            let e2 = classify_frame(f2, locals, c1, t2).0;
            &&& t2 - t1 <= FAST_UDP_WINDOW_MS ==> e2.fast
            &&& t2 - t1 > FAST_UDP_WINDOW_MS ==> !reply_seen(c1, k2, t2) && e2.fast
                == udp_port_fast(
                k2.src_port,
                k2.dst_port,
                udp_payload_len(udp_datagram(f2)->Some_0.segment),
            )
        }),
{
    let k1 = udp_key(udp_datagram(f1)->Some_0);
    lemma_record_then_lookup(cache, k1, t1);
}

/// The events produced for frames seen in order, each with its time, starting from
/// a flow cache.
pub open spec fn replay(
    frames: Seq<(Seq<u8>, u64)>,
    locals: Seq<IpAddress>,
    cache: Seq<(FlowKey, u64)>,
) -> Seq<PacketEvent>
    decreases frames.len(),
{
    if frames.len() == 0 {
        Seq::empty()
    } else {
        let (e, c) = classify_frame(frames[0].0, locals, cache, frames[0].1);
        seq![e] + replay(frames.drop_first(), locals, c)
    }
}

/// Classification depends on nothing but the frames, their times, the interface's
/// addresses and the flow cache: two classifiers with the same addresses and a
/// cleared cache give the same events for the same frames.
pub proof fn lemma_replay_deterministic(
    frames: Seq<(Seq<u8>, u64)>,
    a: Classifier,
    b: Classifier,
)
    requires
        a.locals() == b.locals(),
        a.cache().len() == 0,
        b.cache().len() == 0,
    ensures
        replay(frames, a.locals(), a.cache()) == replay(frames, b.locals(), b.cache()),
{
    assert(a.cache() == b.cache());
}

} // verus!
