//! What packets say, byte by byte, and what becomes of them.
use crate::addr::IpAddr;
use crate::bytes::{be16, be32, v4_at, v6_at};
use crate::daemon::{
    disposal, first_look, looked, tuple_of, ActionView, DaemonView, Fate, Step,
};
use crate::divert::{
    flow_of, ip_header, l3_of, payload_at, rst_of, segment, segment_head, walk, Flow,
};
use crate::dns::observed;
use crate::procinfo::Tuple;
use crate::words::{Mode, Verdict};
use vstd::prelude::*;

verus! {

// ---------------------------------------------------------------------------
// Bytes.
// ---------------------------------------------------------------------------

/// Numbers and addresses are in network byte order: the most significant byte is
/// the first.
pub proof fn lemma_network_order(b: Seq<u8>, i: int)
    ensures
        be16(b, i) == b[i] * 256 + b[i + 1],
        be32(b, i) == b[i] * 0x100_0000 + b[i + 1] * 0x1_0000 + b[i + 2] * 0x100 + b[i + 3],
        v4_at(b, i) == IpAddr::V4(b[i], b[i + 1], b[i + 2], b[i + 3]),
        v6_at(b, i) matches IpAddr::V6(p, q, r, s, t, u, v, w) && p == b[i] * 256 + b[i + 1] && q
            == b[i + 2] * 256 + b[i + 3] && r == b[i + 4] * 256 + b[i + 5] && s == b[i + 6] * 256
            + b[i + 7] && t == b[i + 8] * 256 + b[i + 9] && u == b[i + 10] * 256 + b[i + 11] && v
            == b[i + 12] * 256 + b[i + 13] && w == b[i + 14] * 256 + b[i + 15],
{
}

// ---------------------------------------------------------------------------
// Flows.
// ---------------------------------------------------------------------------

/// An IPv4 packet shows the flow that its header and the four bytes behind it
/// spell, and asks for a connection exactly if it is a TCP segment with SYN set and
/// ACK clear.
pub proof fn lemma_v4_flows(pkt: Seq<u8>)
    requires
        pkt.len() >= 20,
        pkt[0] / 16 == 4,
    ensures
        ({
            let at: int = (pkt[0] % 16) * 4;
            &&& at < 20 || pkt.len() < at + 4 ==> flow_of(pkt) is None
            &&& at >= 20 && pkt.len() >= at + 4 ==> {
                &&& flow_of(pkt) is Some
                &&& flow_of(pkt)->0.proto == pkt[9]
                &&& flow_of(pkt)->0.src == IpAddr::V4(pkt[12], pkt[13], pkt[14], pkt[15])
                &&& flow_of(pkt)->0.dst == IpAddr::V4(pkt[16], pkt[17], pkt[18], pkt[19])
                &&& flow_of(pkt)->0.sport == pkt[at] * 256 + pkt[at + 1]
                &&& flow_of(pkt)->0.dport == pkt[at + 2] * 256 + pkt[at + 3]
                &&& flow_of(pkt)->0.syn_only <==> pkt[9] == 6 && pkt.len() >= at + 14 && pkt[at
                    + 13] & 0x02 != 0 && pkt[at + 13] & 0x10 == 0
            }
        }),
{
}

/// An IPv6 packet shows the flow that its header spells together with the upper
/// layer that its chain of extension headers leads to.
pub proof fn lemma_v6_flows(pkt: Seq<u8>)
    requires
        40 <= pkt.len() <= usize::MAX,
        pkt[0] / 16 == 6,
    ensures
        (match walk(pkt, pkt[6], 40, 8) {
            None => flow_of(pkt) is None,
            Some((proto, at)) => {
                &&& pkt.len() < at + 4 ==> flow_of(pkt) is None
                &&& pkt.len() >= at + 4 ==> {
                    &&& flow_of(pkt) is Some
                    &&& flow_of(pkt)->0.proto == proto
                    &&& flow_of(pkt)->0.src == v6_at(pkt, 8)
                    &&& flow_of(pkt)->0.dst == v6_at(pkt, 24)
                    &&& flow_of(pkt)->0.sport == pkt[at] * 256 + pkt[at + 1]
                    &&& flow_of(pkt)->0.dport == pkt[at + 2] * 256 + pkt[at + 3]
                    &&& flow_of(pkt)->0.syn_only <==> proto == 6 && pkt.len() >= at + 14 && pkt[at
                        + 13] & 0x02 != 0 && pkt[at + 13] & 0x10 == 0
                }
            },
        }),
{
    crate::divert::lemma_walk_forward(pkt, pkt[6], 40, 8);
}

/// Is this the number of an IPv6 extension header?
pub open spec fn is_extension(nh: u8) -> bool {
    nh == 0 || nh == 43 || nh == 44 || nh == 51 || nh == 60
}

/// The upper layer is found by stepping over extension headers: options and routing
/// say their length in units of eight bytes beyond the first, the authentication
/// header in units of four beyond two, and a fragment header is eight bytes long.
/// What carries no upper layer is refused: a later fragment, a header that is cut
/// short, and a chain that is too long.
pub proof fn lemma_extension_headers(pkt: Seq<u8>, nh: u8, off: int, left: nat)
    requires
        0 <= off <= pkt.len(),
    ensures
        left == 0 ==> walk(pkt, nh, off, left) is None,
        left > 0 && !is_extension(nh) ==> walk(pkt, nh, off, left) == Some((nh, off)),
        left > 0 && (nh == 0 || nh == 43 || nh == 60) ==> walk(pkt, nh, off, left) == (if off + 1
            < pkt.len() && off + 8 * (pkt[off + 1] + 1) < pkt.len() {
            walk(pkt, pkt[off], off + 8 * (pkt[off + 1] + 1), (left - 1) as nat)
        } else {
            None
        }),
        left > 0 && nh == 51 ==> walk(pkt, nh, off, left) == (if off + 1 < pkt.len() && off + 4 * (
        pkt[off + 1] + 2) < pkt.len() {
            walk(pkt, pkt[off], off + 4 * (pkt[off + 1] + 2), (left - 1) as nat)
        } else {
            None
        }),
        left > 0 && nh == 44 ==> walk(pkt, nh, off, left) == (if off + 8 < pkt.len() && pkt[off + 2]
            == 0 && pkt[off + 3] < 8 {
            walk(pkt, pkt[off], off + 8, (left - 1) as nat)
        } else {
            None
        }),
{
    if nh == 44 && off + 3 < pkt.len() {
        assert(be16(pkt, off + 2) == pkt[off + 2] * 256 + pkt[off + 3]);
    }
}

/// What is neither IPv4 nor IPv6, or is shorter than its header, shows no flow.
pub proof fn lemma_no_flow(pkt: Seq<u8>)
    requires
        pkt.len() == 0 || (pkt[0] / 16 != 4 && pkt[0] / 16 != 6) || (pkt[0] / 16 == 4 && pkt.len()
            < 20) || (pkt[0] / 16 == 6 && pkt.len() < 40),
    ensures
        flow_of(pkt) is None,
        payload_at(pkt) is None,
        rst_of(pkt) is None,
{
}

/// The upper layer of a packet: its protocol and where it starts. This is what the
/// payload and the reset of a packet go by.
pub open spec fn upper_layer(pkt: Seq<u8>) -> Option<(u8, int)> {
    if pkt.len() >= 20 && pkt[0] / 16 == 4 {
        let at: int = (pkt[0] % 16) * 4;
        if 20 <= at <= pkt.len() {
            Some((pkt[9], at))
        } else {
            None
        }
    } else if pkt.len() >= 40 && pkt[0] / 16 == 6 {
        walk(pkt, pkt[6], 40, 8)
    } else {
        None
    }
}

/// The payload of a UDP packet starts eight bytes into its upper layer; that of a
/// TCP segment where its data offset says, in units of four bytes; and nothing else
/// has one.
pub proof fn lemma_payloads(pkt: Seq<u8>)
    requires
        pkt.len() <= usize::MAX,
    ensures
        payload_at(pkt) == (match upper_layer(pkt) {
            Some((proto, at)) => if proto == 17 {
                Some(at + 8)
            } else if proto == 6 && at + 12 < pkt.len() {
                Some(at + 4 * (pkt[at + 12] / 16))
            } else {
                None
            },
            None => None,
        }),
{
    if pkt.len() >= 40 && pkt[0] / 16 == 6 {
        crate::divert::lemma_walk_forward(pkt, pkt[6], 40, 8);
    }
}

// ---------------------------------------------------------------------------
// Resets.
// ---------------------------------------------------------------------------

/// Exactly the TCP segments with a whole header that are no resets themselves are
/// answered with a reset, of either family.
pub proof fn lemma_segments_are_reset(pkt: Seq<u8>)
    requires
        pkt.len() <= usize::MAX,
    ensures
        rst_of(pkt) is Some <==> (upper_layer(pkt) matches Some((proto, at)) && proto == 6 && at
            + 20 <= pkt.len() && pkt[at + 13] & 0x04 == 0),
{
    if pkt.len() >= 40 && pkt[0] / 16 == 6 {
        crate::divert::lemma_walk_forward(pkt, pkt[6], 40, 8);
    }
}

/// A reset is a bare segment with RST and ACK set, behind a header without options:
/// of its own length, to be relayed by 64 hosts at most, and carrying TCP.
pub proof fn lemma_reset_headers(pkt: Seq<u8>)
    requires
        rst_of(pkt) is Some,
    ensures
        ({
            let r = rst_of(pkt)->0;
            let four = l3_of(pkt)->0.src is V4;
            let at: int = if four {
                20
            } else {
                40
            };
            &&& r.len() == at + 20
            &&& four ==> r[0] == 0x45 && r[1] == 0 && be16(r, 2) == 40 && r[8] == 64 && r[9] == 6
            &&& four ==> r[4] == 0 && r[5] == 0 && r[6] == 0 && r[7] == 0
            &&& !four ==> r[0] == 0x60 && be16(r, 4) == 20 && r[6] == 6 && r[7] == 64
            &&& !four ==> r[1] == 0 && r[2] == 0 && r[3] == 0
            &&& be32(r, at + 4) == 0
            &&& r[at + 12] == 0x50
            &&& r[at + 13] == 0x14
            &&& r[at + 14] == 0 && r[at + 15] == 0
            &&& r[at + 18] == 0 && r[at + 19] == 0
        }),
{
    let h = l3_of(pkt)->0;
    crate::divert::lemma_rst_checksums(pkt);
    reveal(segment);
    reveal(segment_head);
    reveal(ip_header);
    let r = rst_of(pkt)->0;
    if h.src is V4 {
        assert(r[2] == 0 && r[3] == 40);
    } else {
        assert(r[4] == 0 && r[5] == 20);
    }
}

// ---------------------------------------------------------------------------
// The first look.
// ---------------------------------------------------------------------------

/// An attempt to open a connection is attributed and judged, in either family: a
/// TCP segment that asks for one and every UDP packet, where it leaves, is no reply
/// of a name server, and nothing is settled about its flow.
pub proof fn lemma_attempts_are_judged(d: DaemonView, pkt: Seq<u8>, f: Flow)
    requires
        flow_of(pkt) == Some(f),
        f.syn_only || f.proto == 17,
        !(f.proto == 17 && f.sport == 53),
    ensures
        ({
            let t = Tuple {
                proto: f.proto,
                src: f.src,
                sport: f.sport,
                dst: f.dst,
                dport: f.dport,
            };
            &&& !d.decided.contains_key(t) ==> first_look(d, pkt, false) == Step::Attribute(t)
            &&& d.decided.contains_key(t) && d.decided[t] == Verdict::Deny ==> first_look(
                d,
                pkt,
                false,
            ) == Step::Done(Fate::Reject)
            &&& d.decided.contains_key(t) && d.decided[t] == Verdict::Allow ==> first_look(
                d,
                pkt,
                false,
            ) == Step::Done(Fate::Forward)
        }),
{
}

/// A SYN without ACK is judged from its bytes alone, whatever else the packet holds:
/// over IPv4 behind the header, and over IPv6 behind the chain of headers.
pub proof fn lemma_syns_are_judged(d: DaemonView, pkt: Seq<u8>)
    requires
        upper_layer(pkt) matches Some((proto, at)) && proto == 6 && at + 14 <= pkt.len() && pkt[at
            + 13] & 0x02 != 0 && pkt[at + 13] & 0x10 == 0,
        d.decided.is_empty(),
        pkt.len() <= usize::MAX,
    ensures
        first_look(d, pkt, false) matches Step::Attribute(t) && t.proto == 6 && t.dport
            == pkt[(upper_layer(pkt)->0).1 + 2] * 256 + pkt[(upper_layer(pkt)->0).1 + 3],
{
    if pkt[0] / 16 == 4 {
        lemma_v4_flows(pkt);
    } else {
        crate::divert::lemma_walk_forward(pkt, pkt[6], 40, 8);
        lemma_v6_flows(pkt);
    }
}

/// Nothing else is judged: what shows no flow, what arrives, replies of name
/// servers, and what neither asks for a connection nor is UDP goes through.
pub proof fn lemma_the_rest_goes_through(d: DaemonView, pkt: Seq<u8>, inbound: bool)
    requires
        flow_of(pkt) matches Some(f) ==> inbound || (f.proto == 17 && f.sport == 53) || (
        !f.syn_only && f.proto != 17),
    ensures
        first_look(d, pkt, inbound) == Step::Done(Fate::Forward),
{
}

/// The flow that is judged is the flow of the packet.
pub proof fn lemma_judged_flow_is_the_packets(f: Flow)
    ensures
        tuple_of(f) == (Tuple {
            proto: f.proto,
            src: f.src,
            sport: f.sport,
            dst: f.dst,
            dport: f.dport,
        }),
{
}

/// Every UDP packet from port 53 teaches its names, whichever way it goes; no other
/// packet teaches anything, and nothing but names is learned.
pub proof fn lemma_replies_teach(d: DaemonView, pkt: Seq<u8>, now: u64)
    requires
        pkt.len() <= usize::MAX,
    ensures
        ({
            let reply = flow_of(pkt) matches Some(f) && f.proto == 17 && f.sport == 53;
            let at = (upper_layer(pkt)->0).1;
            &&& reply && at + 8 < pkt.len() ==> looked(d, pkt, now).names == observed(
                d.names,
                pkt.subrange(at + 8, pkt.len() as int),
                now,
            )
            &&& !(reply && at + 8 < pkt.len()) ==> looked(d, pkt, now) == d
            &&& looked(d, pkt, now) == (DaemonView { names: looked(d, pkt, now).names, ..d })
        }),
{
    lemma_payloads(pkt);
    let at = (upper_layer(pkt)->0).1;
    if pkt.len() >= 40 && pkt[0] / 16 == 6 {
        crate::divert::lemma_walk_forward(pkt, pkt[6], 40, 8);
    }
    if flow_of(pkt) is Some && at + 8 < pkt.len() {
        assert(pkt.skip(at + 8) =~= pkt.subrange(at + 8, pkt.len() as int));
    }
}

/// While observing every packet is forwarded. While enforcing, what is let through
/// is forwarded, what waits is dropped in silence, and what is denied is answered
/// with its reset if it has one and dropped if it has none.
pub proof fn lemma_disposals(fate: Fate, pkt: Seq<u8>)
    ensures
        disposal(Mode::Visibility, fate, pkt) == ActionView::Forward,
        disposal(Mode::Enforcement, Fate::Forward, pkt) == ActionView::Forward,
        disposal(Mode::Enforcement, Fate::Hold, pkt) == ActionView::Drop,
        rst_of(pkt) is None ==> disposal(Mode::Enforcement, Fate::Reject, pkt) == ActionView::Drop,
        rst_of(pkt) matches Some(r) ==> disposal(Mode::Enforcement, Fate::Reject, pkt)
            == ActionView::Reset(r),
{
}

proof fn lemma_pieces(a: Seq<u8>, b: Seq<u8>, t: Seq<u8>, u: Seq<u8>)
    requires
        a.len() == b.len(),
    ensures
        ({
            let p = a + b + t + u;
            let n = a.len() as int;
            &&& p.len() == 2 * n + t.len() + u.len()
            &&& p.subrange(0, n) == a
            &&& p.subrange(n, 2 * n) == b
            &&& forall|k: int| 0 <= k < t.len() ==> p[2 * n + k] == #[trigger] t[k]
            &&& forall|k: int| 0 <= k < u.len() ==> p[2 * n + t.len() + k] == #[trigger] u[k]
        }),
{
    let p = a + b + t + u;
    let n = a.len() as int;
    assert(p.subrange(0, n) =~= a);
    assert(p.subrange(n, 2 * n) =~= b);
}

/// The checksum of a reset covers the two addresses, the protocol and the length of
/// the segment before it, each where its family has it.
pub proof fn lemma_pseudo_headers(src: IpAddr, dst: IpAddr)
    requires
        src is V4 <==> dst is V4,
    ensures
        ({
            let p = crate::divert::pseudo_header(src, dst);
            &&& src is V4 ==> p.len() == 12 && v4_at(p, 0) == src && v4_at(p, 4) == dst && p[8] == 0
                && p[9] == 6 && p[10] == 0 && p[11] == 20
            &&& src is V6 ==> p.len() == 40 && v6_at(p, 0) == src && v6_at(p, 16) == dst && p[32]
                == 0 && p[33] == 0 && p[34] == 0 && p[35] == 20 && p[36] == 0 && p[37] == 0 && p[38]
                == 0 && p[39] == 6
        }),
{
    let p = crate::divert::pseudo_header(src, dst);
    let a = crate::bytes::octets(src);
    let b = crate::bytes::octets(dst);
    if src is V4 {
        let t = seq![0u8, 6u8];
        let u = crate::bytes::bytes16(20);
        assert(p == a + b + t + u) by {
            reveal(crate::divert::pseudo_header);
        }
        assert(a.len() == 4 && b.len() == 4);
        lemma_pieces(a, b, t, u);
        crate::bytes::lemma_octets_back(p, 0, src);
        crate::bytes::lemma_octets_back(p, 4, dst);
        assert(t[0] == 0 && t[1] == 6 && u[0] == 0 && u[1] == 20);
    } else {
        let t = crate::bytes::bytes32(20);
        let u = seq![0u8, 0u8, 0u8, 6u8];
        assert(p == a + b + t + u) by {
            reveal(crate::divert::pseudo_header);
        }
        assert(a.len() == 16 && b.len() == 16);
        lemma_pieces(a, b, t, u);
        crate::bytes::lemma_octets_back(p, 0, src);
        crate::bytes::lemma_octets_back(p, 16, dst);
        assert(t[0] == 0 && t[1] == 0 && t[2] == 0 && t[3] == 20);
        assert(u[0] == 0 && u[1] == 0 && u[2] == 0 && u[3] == 6);
    }
}

} // verus!
