//! Diverted packets: enough of IPv4, IPv6, TCP and UDP to identify a flow, and
//! the reset that tells an application no.
//!
//! A packet is raw bytes from an untrusted sender. Every function here says
//! exactly which packets it accepts; nothing is read past the end.
use crate::addr::IpAddr;
use crate::bytes::{
    be16, be32, bytes16, bytes32, lemma_octets_back, octets, push16, push32, push_octets, read16,
    read32, read_v4, read_v6, v4_at, v6_at,
};
use crate::checksum::{checksum, csum_one, lemma_filled_in};
use vstd::prelude::*;

verus! {

/// A flow as a packet shows it.
#[derive(Debug, Clone, Copy, PartialEq, Eq, Structural)]
pub struct Flow {
    pub proto: u8,
    pub src: IpAddr,
    pub dst: IpAddr,
    pub sport: u16,
    pub dport: u16,
    /// A TCP segment that asks for a connection: SYN set, ACK clear.
    pub syn_only: bool,
}

/// The network layer of a packet: its addresses, the upper-layer protocol and
/// where that protocol's header starts.
#[derive(Debug, Clone, Copy, PartialEq, Eq, Structural)]
pub struct L3 {
    pub proto: u8,
    pub src: IpAddr,
    pub dst: IpAddr,
    pub l4: usize,
}

// ---------------------------------------------------------------------------
// Network layer.
// ---------------------------------------------------------------------------

/// What a next-header value says about the bytes at an offset.
pub enum Ext {
    /// Not an extension header: the upper layer starts here.
    Upper,
    /// An extension header this many bytes long.
    Skip(int),
    /// An extension header that is cut short, or a fragment other than the
    /// first, which carries no upper-layer header at all.
    Refuse,
}

/// Classify the header of kind `nh` at `off`.
///
/// Hop-by-hop (0), routing (43) and destination options (60) count their length
/// in 8-byte units beyond the first; the fragment header (44) is 8 bytes; the
/// authentication header (51) counts 4-byte units, minus two.
pub open spec fn ext_at(pkt: Seq<u8>, nh: u8, off: int) -> Ext {
    if nh == 0 || nh == 43 || nh == 60 {
        if off + 1 < pkt.len() {
            Ext::Skip((pkt[off + 1] + 1) * 8)
        } else {
            Ext::Refuse
        }
    } else if nh == 44 {
        if off + 3 < pkt.len() && be16(pkt, off + 2) / 8 == 0 {
            Ext::Skip(8)
        } else {
            Ext::Refuse
        }
    } else if nh == 51 {
        if off + 1 < pkt.len() {
            Ext::Skip((pkt[off + 1] + 2) * 4)
        } else {
            Ext::Refuse
        }
    } else {
        Ext::Upper
    }
}

/// The upper-layer protocol and its offset, found by walking at most `fuel`
/// headers from `off`; the upper-layer header must start inside the packet
/// whenever anything was skipped.
pub open spec fn walk(pkt: Seq<u8>, nh: u8, off: int, fuel: nat) -> Option<(u8, int)>
    decreases fuel,
{
    if fuel == 0 {
        None
    } else {
        match ext_at(pkt, nh, off) {
            Ext::Upper => Some((nh, off)),
            Ext::Refuse => None,
            Ext::Skip(n) => if off + n < pkt.len() {
                walk(pkt, pkt[off], off + n, (fuel - 1) as nat)
            } else {
                None
            },
        }
    }
}

/// The most headers that are looked at before a packet is refused.
pub const MAX_HEADERS: u8 = 8;

/// Step over the IPv6 extension headers of a packet.
pub fn skip_ext(pkt: &[u8], nh0: u8, off0: usize) -> (r: Option<(u8, usize)>)
    ensures
        (match r {
            Some((nh, off)) => {
                &&& walk(pkt@, nh0, off0 as int, MAX_HEADERS as nat) == Some((nh, off as int))
                &&& off0 <= pkt@.len() ==> off <= pkt@.len()
            },
            None => walk(pkt@, nh0, off0 as int, MAX_HEADERS as nat) is None,
        }),
{
    let n: usize = pkt.len();
    let mut nh: u8 = nh0;
    let mut off: usize = off0;
    let mut left: u8 = MAX_HEADERS;
    while left > 0
        invariant
            n == pkt@.len(),
            off0 <= n ==> off <= n,
            walk(pkt@, nh, off as int, left as nat) == walk(
                pkt@,
                nh0,
                off0 as int,
                MAX_HEADERS as nat,
            ),
        decreases left,
    {
        let len: usize = if nh == 0 || nh == 43 || nh == 60 {
            if off >= n || n - off < 2 {
                return None;
            }
            (pkt[off + 1] as usize + 1) * 8
        } else if nh == 44 {
            if off >= n || n - off < 4 {
                return None;
            }
            if read16(pkt, off + 2) / 8 != 0 {
                return None;
            }
            8
        } else if nh == 51 {
            if off >= n || n - off < 2 {
                return None;
            }
            (pkt[off + 1] as usize + 2) * 4
        } else {
            return Some((nh, off));
        };
        if len >= n - off {
            return None;
        }
        nh = pkt[off];
        off = off + len;
        left = left - 1;
    }
    None
}

/// The header length of an IPv4 packet, from the low half of its first byte.
pub open spec fn ihl(pkt: Seq<u8>) -> int {
    (pkt[0] % 16) * 4
}

/// The network layer of a packet. IPv4 needs its whole header; IPv6 needs its
/// fixed header and an extension chain that ends.
pub open spec fn l3_of(pkt: Seq<u8>) -> Option<L3> {
    if pkt.len() >= 20 && pkt[0] / 16 == 4 && ihl(pkt) >= 20 && pkt.len() >= ihl(pkt) {
        Some(
            L3 {
                proto: pkt[9],
                src: v4_at(pkt, 12),
                dst: v4_at(pkt, 16),
                l4: ihl(pkt) as usize,
            },
        )
    } else if pkt.len() >= 40 && pkt[0] / 16 == 6 {
        match walk(pkt, pkt[6], 40, MAX_HEADERS as nat) {
            Some((proto, l4)) => Some(
                L3 { proto, src: v6_at(pkt, 8), dst: v6_at(pkt, 24), l4: l4 as usize },
            ),
            None => None,
        }
    } else {
        None
    }
}

/// Read the network layer.
pub fn l3(pkt: &[u8]) -> (r: Option<L3>)
    ensures
        r == l3_of(pkt@),
        r is Some ==> 20 <= r->0.l4 <= pkt@.len(),
{
    if pkt.len() == 0 {
        return None;
    }
    let version: u8 = pkt[0] / 16;
    if version == 4 {
        if pkt.len() < 20 {
            return None;
        }
        let ihl: usize = (pkt[0] % 16) as usize * 4;
        if ihl < 20 || pkt.len() < ihl {
            return None;
        }
        Some(L3 { proto: pkt[9], src: read_v4(pkt, 12), dst: read_v4(pkt, 16), l4: ihl })
    } else if version == 6 {
        if pkt.len() < 40 {
            return None;
        }
        proof {
            lemma_walk_forward(pkt@, pkt@[6], 40, MAX_HEADERS as nat);
        }
        match skip_ext(pkt, pkt[6], 40) {
            Some((proto, l4)) => Some(
                L3 { proto, src: read_v6(pkt, 8), dst: read_v6(pkt, 24), l4 },
            ),
            None => None,
        }
    } else {
        None
    }
}

/// Walking only moves forward, and stays inside the packet.
pub proof fn lemma_walk_forward(pkt: Seq<u8>, nh: u8, off: int, fuel: nat)
    requires
        0 <= off <= pkt.len(),
    ensures
        walk(pkt, nh, off, fuel) matches Some((_, to)) ==> off <= to <= pkt.len(),
    decreases fuel,
{
    if fuel > 0 {
        match ext_at(pkt, nh, off) {
            Ext::Skip(n) => {
                if off + n < pkt.len() {
                    lemma_walk_forward(pkt, pkt[off], off + n, (fuel - 1) as nat);
                }
            },
            _ => {},
        }
    }
}

// ---------------------------------------------------------------------------
// Flows.
// ---------------------------------------------------------------------------

/// Is this flags byte a bare SYN?
pub open spec fn is_syn_only(flags: u8) -> bool {
    flags & 0x02 != 0 && flags & 0x10 == 0
}

/// The flow a packet belongs to: its network layer, then two ports.
pub open spec fn flow_of(pkt: Seq<u8>) -> Option<Flow> {
    match l3_of(pkt) {
        Some(h) => if h.l4 + 4 <= pkt.len() {
            Some(
                Flow {
                    proto: h.proto,
                    src: h.src,
                    dst: h.dst,
                    sport: be16(pkt, h.l4 as int),
                    dport: be16(pkt, h.l4 + 2),
                    syn_only: h.proto == 6 && h.l4 + 14 <= pkt.len() && is_syn_only(
                        pkt[h.l4 + 13],
                    ),
                },
            )
        } else {
            None
        },
        None => None,
    }
}

/// Parse a packet far enough to identify its flow.
pub fn parse(pkt: &[u8]) -> (r: Option<Flow>)
    ensures
        r == flow_of(pkt@),
{
    let h = match l3(pkt) {
        Some(h) => h,
        None => return None,
    };
    let left: usize = pkt.len() - h.l4;
    if left < 4 {
        return None;
    }
    let sport = read16(pkt, h.l4);
    let dport = read16(pkt, h.l4 + 2);
    let syn_only = if h.proto == 6 && left >= 14 {
        let flags: u8 = pkt[h.l4 + 13];
        (flags & 0x02) != 0 && (flags & 0x10) == 0
    } else {
        false
    };
    Some(Flow { proto: h.proto, src: h.src, dst: h.dst, sport, dport, syn_only })
}

/// Where the payload starts: after the 8-byte UDP header, or after the TCP
/// header whose length its own data-offset field gives.
pub open spec fn payload_at(pkt: Seq<u8>) -> Option<int> {
    match l3_of(pkt) {
        Some(h) => if h.proto == 17 {
            Some(h.l4 + 8)
        } else if h.proto == 6 && h.l4 + 12 < pkt.len() {
            Some(h.l4 + (pkt[h.l4 + 12] / 16) * 4)
        } else {
            None
        },
        None => None,
    }
}

/// Where the payload of a UDP or TCP packet starts; it may be past the end of a
/// packet that was cut short.
pub fn payload_offset(pkt: &[u8]) -> (r: Option<usize>)
    requires
        pkt@.len() <= isize::MAX,
    ensures
        r is Some <==> payload_at(pkt@) is Some,
        r is Some ==> r->0 == payload_at(pkt@)->0,
{
    let h = match l3(pkt) {
        Some(h) => h,
        None => return None,
    };
    if h.proto == 17 {
        Some(h.l4 + 8)
    } else if h.proto == 6 {
        if pkt.len() - h.l4 <= 12 {
            return None;
        }
        let doff: usize = (pkt[h.l4 + 12] / 16) as usize * 4;
        Some(h.l4 + doff)
    } else {
        None
    }
}

// ---------------------------------------------------------------------------
// Rejection.
//
// Dropping an unapproved SYN makes the application wait out its own timeout,
// which is right while a prompt is open: the retransmissions carry the
// connection until the user answers. A settled deny is different: the
// application is told no at once, the way a closed port would tell it, by a
// reset that claims to come from the remote end.
// ---------------------------------------------------------------------------

/// The first sixteen bytes of a reset: ports, sequence zero, the
/// acknowledgement, a five-word header, RST and ACK set, window zero.
#[verifier::opaque]
pub open spec fn segment_head(sport: u16, dport: u16, ack: u32) -> Seq<u8> {
    bytes16(sport) + bytes16(dport) + bytes32(0) + bytes32(ack) + seq![0x50u8, 0x14u8] + bytes16(0)
}

/// A whole reset segment with checksum `ck`.
#[verifier::opaque]
pub open spec fn segment(sport: u16, dport: u16, ack: u32, ck: u16) -> Seq<u8> {
    segment_head(sport, dport, ack) + bytes16(ck) + bytes16(0)
}

/// The pseudo-header that the TCP checksum covers, for a 20-byte segment.
#[verifier::opaque]
pub open spec fn pseudo_header(src: IpAddr, dst: IpAddr) -> Seq<u8> {
    match src {
        IpAddr::V4(..) => octets(src) + octets(dst) + seq![0u8, 6u8] + bytes16(20),
        IpAddr::V6(..) => octets(src) + octets(dst) + bytes32(20) + seq![0u8, 0u8, 0u8, 6u8],
    }
}

/// The first ten bytes of the IPv4 header of a 40-byte TCP packet.
pub open spec fn v4_head() -> Seq<u8> {
    seq![0x45u8, 0u8] + bytes16(40) + bytes16(0) + bytes16(0) + seq![64u8, 6u8]
}

/// The first eight bytes of the IPv6 header of a bare 20-byte segment.
pub open spec fn v6_head() -> Seq<u8> {
    seq![0x60u8, 0u8, 0u8, 0u8] + bytes16(20) + seq![6u8, 64u8]
}

/// The IP header of a packet that carries a bare 20-byte segment.
#[verifier::opaque]
pub open spec fn ip_header(src: IpAddr, dst: IpAddr, ck: u16) -> Seq<u8> {
    match src {
        IpAddr::V4(..) => v4_head() + bytes16(ck) + (octets(src) + octets(dst)),
        IpAddr::V6(..) => v6_head() + octets(src) + octets(dst),
    }
}

/// A reset from `src` to `dst`, with every checksum filled in.
pub open spec fn reset(src: IpAddr, dst: IpAddr, sport: u16, dport: u16, ack: u32) -> Seq<u8> {
    let ip_ck = checksum(ip_header(src, dst, 0));
    let tcp_ck = checksum(pseudo_header(src, dst) + segment(sport, dport, ack, 0));
    ip_header(src, dst, ip_ck) + segment(sport, dport, ack, tcp_ck)
}

/// Is this a TCP segment that may be answered with a reset? A reset itself never
/// is.
pub open spec fn is_resettable(pkt: Seq<u8>, h: L3) -> bool {
    h.proto == 6 && h.l4 + 20 <= pkt.len() && pkt[h.l4 + 13] & 0x04 == 0
}

/// The reset that answers a packet: from its destination to its source, ports
/// swapped, acknowledging its sequence number, plus the one that a SYN consumes.
pub open spec fn rst_of(pkt: Seq<u8>) -> Option<Seq<u8>> {
    match l3_of(pkt) {
        Some(h) => if is_resettable(pkt, h) {
            let syn: int = if pkt[h.l4 + 13] & 0x02 != 0 {
                1
            } else {
                0
            };
            Some(
                reset(
                    h.dst,
                    h.src,
                    be16(pkt, h.l4 + 2),
                    be16(pkt, h.l4 as int),
                    ((be32(pkt, h.l4 + 4) + syn) % 0x1_0000_0000) as u32,
                ),
            )
        } else {
            None
        },
        None => None,
    }
}

fn push_segment(out: &mut Vec<u8>, sport: u16, dport: u16, ack: u32, ck: u16)
    ensures
        final(out)@ == old(out)@ + segment(sport, dport, ack, ck),
{
    push16(out, sport);
    push16(out, dport);
    push32(out, 0);
    push32(out, ack);
    out.push(0x50);
    out.push(0x14);
    push16(out, 0);
    push16(out, ck);
    push16(out, 0);
    proof {
        reveal(segment);
        reveal(segment_head);
    }
    assert(out@ =~= old(out)@ + segment(sport, dport, ack, ck));
}

fn push_pseudo_header(out: &mut Vec<u8>, src: &IpAddr, dst: &IpAddr)
    ensures
        final(out)@ == old(out)@ + pseudo_header(*src, *dst),
{
    push_octets(out, src);
    push_octets(out, dst);
    match src {
        IpAddr::V4(..) => {
            out.push(0);
            out.push(6);
            push16(out, 20);
        },
        IpAddr::V6(..) => {
            push32(out, 20);
            out.push(0);
            out.push(0);
            out.push(0);
            out.push(6);
        },
    }
    proof {
        reveal(pseudo_header);
    }
    assert(out@ =~= old(out)@ + pseudo_header(*src, *dst));
}

fn push_ip_header(out: &mut Vec<u8>, src: &IpAddr, dst: &IpAddr, ck: u16)
    ensures
        final(out)@ == old(out)@ + ip_header(*src, *dst, ck),
{
    match src {
        IpAddr::V4(..) => {
            out.push(0x45);
            out.push(0);
            push16(out, 40);
            push16(out, 0);
            push16(out, 0);
            out.push(64);
            out.push(6);
            push16(out, ck);
        },
        IpAddr::V6(..) => {
            out.push(0x60);
            out.push(0);
            out.push(0);
            out.push(0);
            push16(out, 20);
            out.push(6);
            out.push(64);
        },
    }
    push_octets(out, src);
    push_octets(out, dst);
    proof {
        reveal(ip_header);
    }
    assert(out@ =~= old(out)@ + ip_header(*src, *dst, ck));
}

/// Build a TCP reset that answers `pkt`, addressed back to whoever sent it.
pub fn tcp_rst(pkt: &[u8]) -> (r: Option<Vec<u8>>)
    ensures
        (match r {
            Some(v) => rst_of(pkt@) == Some(v@),
            None => rst_of(pkt@) is None,
        }),
{
    let h = match l3(pkt) {
        Some(h) => h,
        None => return None,
    };
    if h.proto != 6 || pkt.len() - h.l4 < 20 {
        return None;
    }
    let flags: u8 = pkt[h.l4 + 13];
    if flags & 0x04 != 0 {
        return None;
    }
    let sport = read16(pkt, h.l4);
    let dport = read16(pkt, h.l4 + 2);
    let seq = read32(pkt, h.l4 + 4);
    let ack: u32 = if flags & 0x02 != 0 {
        seq.wrapping_add(1)
    } else {
        seq
    };

    Some(reset_packet(&h.dst, &h.src, dport, sport, ack))
}

fn reset_packet(src: &IpAddr, dst: &IpAddr, sport: u16, dport: u16, ack: u32) -> (r: Vec<u8>)
    ensures
        r@ == reset(*src, *dst, sport, dport, ack),
{
    let mut covered: Vec<u8> = Vec::new();
    push_pseudo_header(&mut covered, src, dst);
    push_segment(&mut covered, sport, dport, ack, 0);
    let tcp_ck = csum_one(covered.as_slice());
    let mut header: Vec<u8> = Vec::new();
    push_ip_header(&mut header, src, dst, 0);
    let ip_ck = csum_one(header.as_slice());
    let mut out: Vec<u8> = Vec::new();
    push_ip_header(&mut out, src, dst, ip_ck);
    push_segment(&mut out, sport, dport, ack, tcp_ck);
    proof {
        let none = Seq::<u8>::empty();
        assert(none + pseudo_header(*src, *dst) =~= pseudo_header(*src, *dst));
        assert(none + ip_header(*src, *dst, 0) =~= ip_header(*src, *dst, 0));
        assert(none + ip_header(*src, *dst, ip_ck) =~= ip_header(*src, *dst, ip_ck));
    }
    out
}

// ---------------------------------------------------------------------------
// What holds of every reset.
// ---------------------------------------------------------------------------

/// Both ends of a packet belong to the same family.
pub open spec fn same_family(a: IpAddr, b: IpAddr) -> bool {
    a is V4 <==> b is V4
}

proof fn lemma_segment_bytes(sport: u16, dport: u16, ack: u32, ck: u16)
    ensures
        ({
            let seg = segment(sport, dport, ack, ck);
            &&& seg.len() == 20
            &&& be16(seg, 0) == sport
            &&& be16(seg, 2) == dport
            &&& be32(seg, 8) == ack
            &&& seg[13] == 0x14
        }),
{
    reveal(segment);
    reveal(segment_head);
    let seg = segment(sport, dport, ack, ck);
    assert(be16(seg, 8) == ack / 65536 && be16(seg, 10) == ack % 65536);
}

proof fn lemma_segment_parts(sport: u16, dport: u16, ack: u32, ck: u16)
    ensures
        segment_head(sport, dport, ack).len() == 16,
        segment(sport, dport, ack, ck) == segment_head(sport, dport, ack) + bytes16(ck) + bytes16(0),
{
    reveal(segment);
    reveal(segment_head);
}

proof fn lemma_header_parts(src: IpAddr, dst: IpAddr, ck: u16)
    requires
        same_family(src, dst),
    ensures
        src is V4 ==> ip_header(src, dst, ck) == v4_head() + bytes16(ck) + (octets(src) + octets(
            dst,
        )),
        ip_header(src, dst, ck).len() == (if src is V4 {
            20int
        } else {
            40
        }),
        pseudo_header(src, dst).len() % 2 == 0,
{
    reveal(ip_header);
    reveal(pseudo_header);
}

proof fn lemma_v4_header_bytes(src: IpAddr, dst: IpAddr, ck: u16)
    requires
        src is V4,
        dst is V4,
    ensures
        ({
            let ip = ip_header(src, dst, ck);
            &&& ip.len() == 20
            &&& ip[0] == 0x45
            &&& ip[9] == 6
            &&& v4_at(ip, 12) == src
            &&& v4_at(ip, 16) == dst
        }),
{
    reveal(ip_header);
}

#[verifier::rlimit(40)]
#[verifier::spinoff_prover]
proof fn lemma_v6_header_bytes(src: IpAddr, dst: IpAddr, ck: u16)
    requires
        src is V6,
        dst is V6,
    ensures
        ({
            let ip = ip_header(src, dst, ck);
            &&& ip.len() == 40
            &&& ip[0] == 0x60
            &&& ip[6] == 6
            &&& v6_at(ip, 8) == src
            &&& v6_at(ip, 24) == dst
        }),
{
    let ip = ip_header(src, dst, ck);
    assert(ip == v6_head() + octets(src) + octets(dst)) by {
        reveal(ip_header);
    }
    lemma_three_parts(v6_head(), octets(src), octets(dst));
    lemma_v6_sizes(src);
    lemma_v6_sizes(dst);
    assert(ip[0] == v6_head()[0] && ip[6] == v6_head()[6]);
    lemma_octets_back(ip, 8, src);
    lemma_octets_back(ip, 24, dst);
}

proof fn lemma_v6_sizes(a: IpAddr)
    requires
        a is V6,
    ensures
        v6_head().len() == 8,
        v6_head()[0] == 0x60,
        v6_head()[6] == 6,
        octets(a).len() == 16,
{
}

proof fn lemma_three_parts(a: Seq<u8>, b: Seq<u8>, c: Seq<u8>)
    ensures
        (a + b + c).subrange(a.len() as int, a.len() as int + b.len()) == b,
        (a + b + c).subrange(
        a.len() as int + b.len(),
        a.len() as int + b.len() + c.len(),
    ) == c,
        forall|i: int| 0 <= i < a.len() ==> (a + b + c)[i] == a[i],
{
    assert((a + b + c).subrange(a.len() as int, a.len() as int + b.len()) =~= b);
    assert((a + b + c).subrange(
        a.len() as int + b.len(),
        a.len() as int + b.len() + c.len(),
    ) =~= c);
}

proof fn lemma_reset_sums(src: IpAddr, dst: IpAddr, sport: u16, dport: u16, ack: u32)
    requires
        same_family(src, dst),
    ensures
        ({
            let r = reset(src, dst, sport, dport, ack);
            let at: int = if src is V4 {
                20
            } else {
                40
            };
            &&& src is V4 ==> checksum(r.take(20)) == 0
            &&& checksum(pseudo_header(src, dst) + r.skip(at)) == 0
            &&& r.len() == at + 20
        }),
{
    let r = reset(src, dst, sport, dport, ack);
    let pseudo = pseudo_header(src, dst);
    let head = segment_head(sport, dport, ack);
    let tcp_ck = checksum(pseudo + segment(sport, dport, ack, 0));
    let seg = segment(sport, dport, ack, tcp_ck);
    let ip_ck = checksum(ip_header(src, dst, 0));
    let ip = ip_header(src, dst, ip_ck);
    lemma_segment_parts(sport, dport, ack, 0);
    lemma_segment_parts(sport, dport, ack, tcp_ck);
    lemma_header_parts(src, dst, 0);
    lemma_header_parts(src, dst, ip_ck);
    lemma_filled_in(pseudo + head, bytes16(0));
    lemma_regroup(pseudo, head, bytes16(0), bytes16(0));
    lemma_regroup(pseudo, head, bytes16(tcp_ck), bytes16(0));
    assert(r.skip(ip.len() as int) =~= seg);
    if src is V4 {
        lemma_filled_in(v4_head(), octets(src) + octets(dst));
        assert(r.take(20) =~= ip);
    }
}

proof fn lemma_regroup(a: Seq<u8>, b: Seq<u8>, c: Seq<u8>, d: Seq<u8>)
    ensures
        a + (b + c + d) == (a + b) + c + d,
{
    assert(a + (b + c + d) =~= (a + b) + c + d);
}

/// A receiver that adds up a reset finds every checksum right: the IPv4 header
/// by itself, and the segment together with its pseudo-header.
pub proof fn lemma_rst_checksums(pkt: Seq<u8>)
    requires
        rst_of(pkt) is Some,
    ensures
        ({
            let r = rst_of(pkt)->0;
            let h = l3_of(pkt)->0;
            let at: int = if h.src is V4 {
                20
            } else {
                40
            };
            &&& h.src is V4 ==> checksum(r.take(20)) == 0
            &&& checksum(pseudo_header(h.dst, h.src) + r.skip(at)) == 0
            &&& r.len() == at + 20
        }),
{
    let h = l3_of(pkt)->0;
    let syn: int = if pkt[h.l4 + 13] & 0x02 != 0 {
        1
    } else {
        0
    };
    let sport = be16(pkt, h.l4 + 2);
    let dport = be16(pkt, h.l4 as int);
    let ack = ((be32(pkt, h.l4 + 4) + syn) % 0x1_0000_0000) as u32;
    lemma_reset_sums(h.dst, h.src, sport, dport, ack);
}

proof fn lemma_reset_reads_back(src: IpAddr, dst: IpAddr, sport: u16, dport: u16, ack: u32)
    requires
        same_family(src, dst),
    ensures
        ({
            let r = reset(src, dst, sport, dport, ack);
            let l4: int = if src is V4 {
                20
            } else {
                40
            };
            &&& l3_of(r) == Some(L3 { proto: 6, src, dst, l4: l4 as usize })
            &&& r.len() == l4 + 20
            &&& be16(r, l4) == sport
            &&& be16(r, l4 + 2) == dport
            &&& be32(r, l4 + 8) == ack
            &&& r[l4 + 13] == 0x14
        }),
{
    let r = reset(src, dst, sport, dport, ack);
    let ip_ck = checksum(ip_header(src, dst, 0));
    let tcp_ck = checksum(pseudo_header(src, dst) + segment(sport, dport, ack, 0));
    let ip = ip_header(src, dst, ip_ck);
    let seg = segment(sport, dport, ack, tcp_ck);
    let l4 = ip.len() as int;
    lemma_segment_bytes(sport, dport, ack, tcp_ck);
    lemma_header_parts(src, dst, ip_ck);
    assert(r == ip + seg);
    assert(r[l4] == seg[0] && r[l4 + 1] == seg[1] && r[l4 + 2] == seg[2] && r[l4 + 3] == seg[3]
        && r[l4 + 13] == seg[13]);
    assert(r[l4 + 8] == seg[8] && r[l4 + 9] == seg[9] && r[l4 + 10] == seg[10] && r[l4 + 11]
        == seg[11]);
    assert forall|k: int| 0 <= k < l4 implies r[k] == ip[k] by {}
    if src is V4 {
        lemma_v4_header_bytes(src, dst, ip_ck);
    } else {
        lemma_v6_header_bytes(src, dst, ip_ck);
        assert(v6_at(r, 8) == v6_at(ip, 8));
        assert(v6_at(r, 24) == v6_at(ip, 24));
        assert(ext_at(r, 6, 40) is Upper);
        assert(walk(r, 6, 40, MAX_HEADERS as nat) == Some((6u8, 40int)));
    }
}

/// A reset is addressed back to the sender: it reads as a flow whose addresses
/// and ports are those of the packet it answers, swapped, and it asks for no
/// connection. It acknowledges the sequence number of that packet, plus the one
/// that a SYN consumes, modulo the size of a sequence number.
pub proof fn lemma_rst_goes_back(pkt: Seq<u8>)
    requires
        rst_of(pkt) is Some,
    ensures
        ({
            let f = flow_of(pkt)->0;
            let h = l3_of(pkt)->0;
            let r = rst_of(pkt)->0;
            let at: int = if h.src is V4 {
                20
            } else {
                40
            };
            let syn: int = if pkt[h.l4 + 13] & 0x02 != 0 {
                1
            } else {
                0
            };
            &&& flow_of(pkt) is Some
            &&& flow_of(r) == Some(
                Flow {
                    proto: 6,
                    src: f.dst,
                    dst: f.src,
                    sport: f.dport,
                    dport: f.sport,
                    syn_only: false,
                },
            )
            &&& be32(r, at + 8) == (be32(pkt, h.l4 + 4) + syn) % 0x1_0000_0000
        }),
{
    let h = l3_of(pkt)->0;
    let syn: int = if pkt[h.l4 + 13] & 0x02 != 0 {
        1
    } else {
        0
    };
    lemma_reset_reads_back(
        h.dst,
        h.src,
        be16(pkt, h.l4 + 2),
        be16(pkt, h.l4 as int),
        ((be32(pkt, h.l4 + 4) + syn) % 0x1_0000_0000) as u32,
    );
    assert(0x14u8 & 0x10u8 != 0) by (bit_vector);
}

/// A reset is never answered with another: two hosts cannot bounce them.
pub proof fn lemma_rst_is_final(pkt: Seq<u8>)
    requires
        rst_of(pkt) is Some,
    ensures
        rst_of(rst_of(pkt)->0) is None,
{
    let h = l3_of(pkt)->0;
    let syn: int = if pkt[h.l4 + 13] & 0x02 != 0 {
        1
    } else {
        0
    };
    lemma_reset_reads_back(
        h.dst,
        h.src,
        be16(pkt, h.l4 + 2),
        be16(pkt, h.l4 as int),
        ((be32(pkt, h.l4 + 4) + syn) % 0x1_0000_0000) as u32,
    );
    assert(0x14u8 & 0x04u8 != 0) by (bit_vector);
}

/// Only a TCP segment with SYN set and ACK clear counts as a connection attempt.
pub proof fn lemma_attempts_are_tcp(pkt: Seq<u8>)
    ensures
        flow_of(pkt) matches Some(f) ==> (f.syn_only ==> f.proto == 6),
{
}

} // verus!
