//! Reading link-layer frames: Ethernet, IPv4, IPv6, TCP and UDP header fields.
//!
//! Every reader works on offsets into the frame. A header that does not fit in
//! the bytes at hand is reported as absent, never as an error.
use vstd::prelude::*;

use crate::flow::IpAddress;

verus! {

pub const ETHERTYPE_IPV4: u16 = 0x0800;
pub const ETHERTYPE_IPV6: u16 = 0x86dd;
pub const ETHERTYPE_ARP: u16 = 0x0806;

pub const IP_PROTO_ICMP: u8 = 1;
pub const IP_PROTO_TCP: u8 = 6;
pub const IP_PROTO_UDP: u8 = 17;
pub const IP_PROTO_ICMPV6: u8 = 58;

pub const ETHERNET_HEADER_LEN: usize = 14;
pub const IPV4_MIN_HEADER_LEN: usize = 20;
pub const IPV6_HEADER_LEN: usize = 40;
pub const TCP_MIN_HEADER_LEN: usize = 20;
pub const UDP_HEADER_LEN: usize = 8;

/// Big-endian 16-bit integer at `i`.
pub open spec fn be16(b: Seq<u8>, i: int) -> u16 {
    (b[i] as int * 0x100 + b[i + 1] as int) as u16
}

/// Big-endian 32-bit integer at `i`.
pub open spec fn be32(b: Seq<u8>, i: int) -> u32 {
    (b[i] as int * 0x100_0000 + b[i + 1] as int * 0x1_0000 + b[i + 2] as int * 0x100
        + b[i + 3] as int) as u32
}

/// Big-endian 64-bit integer at `i`.
pub open spec fn be64(b: Seq<u8>, i: int) -> u64 {
    (be32(b, i) as int * 0x1_0000_0000 + be32(b, i + 4) as int) as u64
}

/// Big-endian 128-bit integer at `i`.
pub open spec fn be128(b: Seq<u8>, i: int) -> u128 {
    (be64(b, i) as int * 0x1_0000_0000_0000_0000 + be64(b, i + 8) as int) as u128
}

pub fn read_be16(b: &[u8], i: usize) -> (r: u16)
    requires
        i + 2 <= b@.len(),
    ensures
        r == be16(b@, i as int),
{
    (b[i] as u16) * 0x100 + (b[i + 1] as u16)
}

pub fn read_be32(b: &[u8], i: usize) -> (r: u32)
    requires
        i + 4 <= b@.len(),
    ensures
        r == be32(b@, i as int),
{
    (b[i] as u32) * 0x100_0000 + (b[i + 1] as u32) * 0x1_0000 + (b[i + 2] as u32) * 0x100 + (b[i
        + 3] as u32)
}

pub fn read_be128(b: &[u8], i: usize) -> (r: u128)
    requires
        i + 16 <= b@.len(),
    ensures
        r == be128(b@, i as int),
{
    let n = b.len();
    assert(i + 16 <= n);
    let a = read_be32(b, i) as u128;
    let c = read_be32(b, i + 4) as u128;
    let d = read_be32(b, i + 8) as u128;
    let e = read_be32(b, i + 12) as u128;
    let hi = a * 0x1_0000_0000 + c;
    let lo = d * 0x1_0000_0000 + e;
    hi * 0x1_0000_0000_0000_0000 + lo
}

/// A run of bytes inside a frame: `frame[start..end]`.
#[derive(Debug, Clone, Copy, PartialEq, Eq, Structural)]
pub struct Span {
    pub start: usize,
    pub end: usize,
}

/// The bytes a span covers.
pub open spec fn span_bytes(f: Seq<u8>, s: Span) -> Seq<u8> {
    f.subrange(s.start as int, s.end as int)
}

pub open spec fn span_ok(f: Seq<u8>, s: Span) -> bool {
    s.start <= s.end <= f.len()
}

/// The payload of an IPv4 packet `p`: after the header (its length field, at least
/// 20 bytes) and up to the total-length field, cut short by the bytes at hand.
pub open spec fn ipv4_payload_bounds(p: Seq<u8>) -> (int, int) {
    let hl = (p[0] % 16) as int * 4;
    let start = if hl > 20 { hl } else { 20 };
    let total = be16(p, 2) as int;
    let plen = if total >= hl { total - hl } else { 0 };
    if p.len() <= start {
        (p.len() as int, p.len() as int)
    } else if start + plen < p.len() {
        (start, start + plen)
    } else {
        (start, p.len() as int)
    }
}

/// The payload of an IPv6 packet `p`: after the fixed 40-byte header, up to the
/// payload-length field, cut short by the bytes at hand.
pub open spec fn ipv6_payload_bounds(p: Seq<u8>) -> (int, int) {
    let plen = be16(p, 4) as int;
    if p.len() <= 40 {
        (p.len() as int, p.len() as int)
    } else if 40 + plen < p.len() {
        (40, 40 + plen)
    } else {
        (40, p.len() as int)
    }
}

/// Payload length of a TCP segment `s`: what follows the header, whose length is
/// the data-offset field (at least 20 bytes).
pub open spec fn tcp_payload_len(s: Seq<u8>) -> int {
    let off = (s[12] / 16) as int;
    let start = if off > 5 { off * 4 } else { 20 };
    if s.len() <= start {
        0
    } else {
        s.len() - start
    }
}

/// Payload length of a UDP datagram `s`: what follows the 8-byte header.
pub open spec fn udp_payload_len(s: Seq<u8>) -> int {
    s.len() - 8
}

/// Shifts a span of `f.subrange(base.start, base.end)` to a span of `f`.
pub open spec fn inner_span(base: Span, b: (int, int)) -> Span {
    Span { start: (base.start + b.0) as usize, end: (base.start + b.1) as usize }
}

/// Where the IPv4 payload of the packet in `span` lies.
pub fn ipv4_payload(f: &[u8], span: Span) -> (r: Span)
    requires
        span_ok(f@, span),
        span.end - span.start >= IPV4_MIN_HEADER_LEN,
    ensures
        span_ok(f@, r),
        span.start <= r.start,
        r.end <= span.end,
        r == inner_span(span, ipv4_payload_bounds(span_bytes(f@, span))),
{
    let ghost p = span_bytes(f@, span);
    let len = span.end - span.start;
    let hl = ((f[span.start] % 16) as usize) * 4;
    let start: usize = if hl > 20 { hl } else { 20 };
    let total = read_be16(f, span.start + 2) as usize;
    let plen: usize = if total >= hl { total - hl } else { 0 };
    proof {
        assert(p[0] == f@[span.start as int]);
        assert(p[2] == f@[span.start + 2]);
        assert(p[3] == f@[span.start + 3]);
    }
    if len <= start {
        Span { start: span.end, end: span.end }
    } else if start + plen < len {
        Span { start: span.start + start, end: span.start + start + plen }
    } else {
        Span { start: span.start + start, end: span.end }
    }
}

/// Where the IPv6 payload of the packet in `span` lies.
pub fn ipv6_payload(f: &[u8], span: Span) -> (r: Span)
    requires
        span_ok(f@, span),
        span.end - span.start >= IPV6_HEADER_LEN,
    ensures
        span_ok(f@, r),
        span.start <= r.start,
        r.end <= span.end,
        r == inner_span(span, ipv6_payload_bounds(span_bytes(f@, span))),
{
    let ghost p = span_bytes(f@, span);
    let len = span.end - span.start;
    let plen = read_be16(f, span.start + 4) as usize;
    proof {
        assert(p[4] == f@[span.start + 4]);
        assert(p[5] == f@[span.start + 5]);
    }
    if len <= 40 {
        Span { start: span.end, end: span.end }
    } else if 40 + plen < len {
        Span { start: span.start + 40, end: span.start + 40 + plen }
    } else {
        Span { start: span.start + 40, end: span.end }
    }
}

/// Payload length of the TCP segment in `span`.
pub fn tcp_payload(f: &[u8], span: Span) -> (r: usize)
    requires
        span_ok(f@, span),
        span.end - span.start >= TCP_MIN_HEADER_LEN,
    ensures
        r == tcp_payload_len(span_bytes(f@, span)),
{
    let ghost p = span_bytes(f@, span);
    let len = span.end - span.start;
    let off = (f[span.start + 12] / 16) as usize;
    let start: usize = if off > 5 { off * 4 } else { 20 };
    proof {
        assert(p[12] == f@[span.start + 12]);
    }
    if len <= start {
        0
    } else {
        len - start
    }
}

} // verus!
