use pfsnitch::addr::IpAddr;
use pfsnitch::checksum::csum;
use pfsnitch::divert::{parse, payload_offset, skip_ext, tcp_rst};

fn ip(s: &str) -> IpAddr {
    IpAddr::parse(s).unwrap()
}

/// Build an IPv6 header with a given next-header and payload appended.
fn v6(nh: u8, rest: &[u8]) -> Vec<u8> {
    let mut p = vec![0x60, 0, 0, 0];
    p.extend_from_slice(&(rest.len() as u16).to_be_bytes());
    p.push(nh);
    p.push(64);
    p.extend_from_slice(&[0x20, 0x01, 0x0d, 0xb8, 0, 0, 0, 0, 0, 0, 0, 0, 0, 0, 0, 1]);
    p.extend_from_slice(&[0x20, 0x01, 0x48, 0x60, 0, 0, 0, 0, 0, 0, 0, 0, 0, 0, 0x88, 0x88]);
    p.extend_from_slice(rest);
    p
}

/// TCP header with the given flags byte.
fn tcp(sport: u16, dport: u16, flags: u8) -> Vec<u8> {
    let mut t = Vec::new();
    t.extend_from_slice(&sport.to_be_bytes());
    t.extend_from_slice(&dport.to_be_bytes());
    t.extend_from_slice(&[0; 8]);
    t.push(0x50);
    t.push(flags);
    t.extend_from_slice(&[0; 6]);
    t
}

/// An IPv4 packet from 10.0.0.2 to the given address.
fn v4(dst: [u8; 4], segment: &[u8]) -> Vec<u8> {
    let mut p = vec![0x45, 0, 0, 40, 0, 0, 0, 0, 64, 6, 0, 0];
    p.extend_from_slice(&[10, 0, 0, 2]);
    p.extend_from_slice(&dst);
    p.extend_from_slice(segment);
    p
}

fn sums_to_zero(parts: &[&[u8]]) -> bool {
    csum(parts) == 0
}

#[test]
fn v6_syn_is_parsed_and_recognised_as_a_connection_attempt() {
    let f = parse(&v6(6, &tcp(41000, 443, 0x02))).expect("v6 SYN should parse");
    assert_eq!(f.proto, 6);
    assert_eq!(f.dport, 443);
    assert_eq!(f.sport, 41000);
    assert_eq!(f.dst, ip("2001:4860::8888"));
    assert!(f.syn_only, "SYN without ACK is a connection attempt");
}

#[test]
fn v6_synack_is_not_a_connection_attempt() {
    let f = parse(&v6(6, &tcp(443, 41000, 0x12))).unwrap();
    assert!(!f.syn_only, "SYN+ACK is a reply, not an attempt");
}

#[test]
fn v6_extension_headers_are_walked_to_reach_the_real_protocol() {
    let mut chain = vec![6u8, 0, 0, 0, 0, 0, 0, 0];
    chain.extend_from_slice(&tcp(41000, 443, 0x02));
    let f = parse(&v6(0, &chain)).expect("must walk past hop-by-hop");
    assert_eq!(f.proto, 6, "protocol comes from the end of the chain, not byte 6");
    assert_eq!(f.dport, 443, "ports must be read after the extension header");
    assert!(f.syn_only);
}

#[test]
fn v6_non_first_fragment_is_refused_rather_than_misparsed() {
    let mut frag = vec![6u8, 0, 0x00, 0x08, 0, 0, 0, 1];
    frag.extend_from_slice(&tcp(41000, 443, 0x02));
    assert!(parse(&v6(44, &frag)).is_none(), "later fragments carry no ports");
}

#[test]
fn v6_udp_payload_offset_lands_after_the_udp_header() {
    let mut udp = vec![0x00, 0x35, 0x00, 0x35, 0, 8, 0, 0];
    udp.extend_from_slice(b"DNSBODY");
    let pkt = v6(17, &udp);
    assert_eq!(payload_offset(&pkt), Some(48), "40-byte v6 header + 8-byte udp");
    assert_eq!(&pkt[48..], b"DNSBODY");
}

#[test]
fn v4_still_parses_unchanged() {
    let p = v4([8, 8, 8, 8], &tcp(41000, 443, 0x02));
    let f = parse(&p).expect("v4 must still work");
    assert_eq!(f.dst, ip("8.8.8.8"));
    assert_eq!(f.dport, 443);
    assert!(f.syn_only);
}

#[test]
fn v4_rst_has_valid_ip_and_tcp_checksums() {
    let p = v4([93, 184, 216, 34], &tcp(41000, 443, 0x02));
    let r = tcp_rst(&p).expect("a SYN should get a reset");

    assert_eq!(r.len(), 40);
    assert!(sums_to_zero(&[&r[..20]]), "IP header checksum is wrong");

    let pseudo = [93, 184, 216, 34, 10, 0, 0, 2, 0, 6, 0, 20];
    assert!(sums_to_zero(&[&pseudo, &r[20..]]), "TCP checksum is wrong");
}

#[test]
fn v4_rst_is_addressed_back_to_the_sender() {
    let p = v4([93, 184, 216, 34], &tcp(41000, 443, 0x02));
    let r = tcp_rst(&p).unwrap();

    assert_eq!(&r[12..16], &[93, 184, 216, 34], "reset must come FROM the peer");
    assert_eq!(&r[16..20], &[10, 0, 0, 2], "and go TO the local end");
    assert_eq!(u16::from_be_bytes([r[20], r[21]]), 443, "source port is the peer's");
    assert_eq!(u16::from_be_bytes([r[22], r[23]]), 41000);
    assert_eq!(r[33] & 0x04, 0x04, "RST flag must be set");
    assert_eq!(u32::from_be_bytes([r[28], r[29], r[30], r[31]]), 1);
}

#[test]
fn v6_rst_has_a_valid_tcp_checksum() {
    let p = v6(6, &tcp(41000, 443, 0x02));
    let r = tcp_rst(&p).expect("a v6 SYN should get a reset");
    assert_eq!(r.len(), 60);

    let mut pseudo = Vec::new();
    pseudo.extend_from_slice(&r[8..24]);
    pseudo.extend_from_slice(&r[24..40]);
    pseudo.extend_from_slice(&20u32.to_be_bytes());
    pseudo.extend_from_slice(&[0, 0, 0, 6]);
    assert!(sums_to_zero(&[&pseudo, &r[40..]]), "v6 TCP checksum is wrong");
    assert_eq!(r[40 + 13] & 0x04, 0x04);
}

#[test]
fn an_rst_is_never_answered_with_another_rst() {
    let p = v4([93, 184, 216, 34], &tcp(41000, 443, 0x04));
    assert!(tcp_rst(&p).is_none());
    let first = tcp_rst(&v4([93, 184, 216, 34], &tcp(41000, 443, 0x02))).unwrap();
    assert!(tcp_rst(&first).is_none());
}

#[test]
fn udp_gets_no_reset() {
    let mut udp = vec![0x00, 0x35, 0x00, 0x35, 0, 8, 0, 0];
    udp.extend_from_slice(b"x");
    assert!(tcp_rst(&v6(17, &udp)).is_none());
}

#[test]
fn truncated_and_garbage_packets_are_rejected_not_panicked_on() {
    assert!(parse(&[]).is_none());
    assert!(parse(&[0x60]).is_none());
    assert!(parse(&vec![0x60; 39]).is_none(), "short of the 40-byte v6 header");
    assert!(parse(&[0x00; 60]).is_none(), "version 0 is neither family");
    assert!(parse(&v6(0, &[])).is_none());
}

#[test]
fn a_reset_reads_back_as_the_flow_turned_round() {
    let p = v6(6, &tcp(41000, 443, 0x02));
    let there = parse(&p).unwrap();
    let back = parse(&tcp_rst(&p).unwrap()).unwrap();
    assert_eq!((back.src, back.sport), (there.dst, there.dport));
    assert_eq!((back.dst, back.dport), (there.src, there.sport));
    assert!(!back.syn_only);
}

#[test]
fn a_reset_acknowledges_the_sequence_number() {
    let mut seg = tcp(41000, 443, 0x02);
    seg[4..8].copy_from_slice(&[0xff, 0xff, 0xff, 0xff]);
    let r = tcp_rst(&v4([1, 1, 1, 1], &seg)).unwrap();
    assert_eq!(&r[28..32], &[0, 0, 0, 0], "a SYN consumes one number, and the count wraps");
    let mut data = tcp(41000, 443, 0x10);
    data[4..8].copy_from_slice(&[0, 0, 1, 0]);
    let r = tcp_rst(&v4([1, 1, 1, 1], &data)).unwrap();
    assert_eq!(&r[28..32], &[0, 0, 1, 0]);
}

#[test]
fn checksum_of_known_messages() {
    assert_eq!(csum(&[]), 0xffff);
    assert_eq!(csum(&[&[0x00, 0x01, 0xf2, 0x03, 0xf4, 0xf5, 0xf6, 0xf7]]), 0x220d);
    assert_eq!(csum(&[&[0xff, 0xff]]), 0);
    assert_eq!(csum(&[&[0x12]]), !0x1200);
}

#[test]
fn checksum_runs_across_odd_parts() {
    let whole = [1u8, 2, 3, 4, 5, 6, 7];
    assert_eq!(csum(&[&whole]), csum(&[&whole[..1], &whole[1..4], &[], &whole[4..]]));
}

#[test]
fn extension_chain_is_bounded() {
    let mut pkt = v6(60, &[]);
    for _ in 0..7 {
        pkt.extend_from_slice(&[60, 0, 0, 0, 0, 0, 0, 0]);
    }
    let mut seven = pkt.clone();
    seven[40 + 6 * 8] = 6;
    seven.extend_from_slice(&tcp(1, 2, 2));
    assert_eq!(skip_ext(&seven, 60, 40), Some((6, 96)));
    let mut eight = pkt.clone();
    eight.extend_from_slice(&[6, 0, 0, 0, 0, 0, 0, 0]);
    eight.extend_from_slice(&tcp(1, 2, 2));
    assert_eq!(skip_ext(&eight, 60, 40), None);
}

#[test]
fn authentication_header_counts_in_words() {
    let mut chain = vec![17u8, 1, 0, 0, 0, 0, 0, 0, 0, 0, 0, 0];
    chain.extend_from_slice(&[0, 1, 0, 2, 0, 0, 0, 0]);
    let f = parse(&v6(51, &chain)).unwrap();
    assert_eq!((f.proto, f.sport, f.dport), (17, 1, 2));
}

#[test]
fn first_fragment_still_has_its_ports() {
    let mut frag = vec![6u8, 0, 0x00, 0x07, 0, 0, 0, 1];
    frag.extend_from_slice(&tcp(41000, 443, 0x02));
    assert_eq!(parse(&v6(44, &frag)).unwrap().dport, 443);
}

#[test]
fn v4_options_move_the_ports() {
    let mut p = vec![0x46, 0, 0, 44, 0, 0, 0, 0, 64, 17, 0, 0, 10, 0, 0, 2, 8, 8, 8, 8, 0, 0, 0, 0];
    p.extend_from_slice(&[0, 53, 0x30, 0x39, 0, 8, 0, 0]);
    let f = parse(&p).unwrap();
    assert_eq!((f.sport, f.dport), (53, 12345));
    assert_eq!(payload_offset(&p), Some(32));
    p[0] = 0x44;
    assert!(parse(&p).is_none(), "a header shorter than twenty bytes is none");
}

#[test]
fn tcp_payload_follows_its_own_header_length() {
    let mut seg = tcp(1, 2, 0x10);
    seg[12] = 0x80;
    assert_eq!(payload_offset(&v4([1, 1, 1, 1], &seg)), Some(52));
    assert_eq!(payload_offset(&v4([1, 1, 1, 1], &seg[..12])), None);
    let mut icmp = v4([1, 1, 1, 1], &seg);
    icmp[9] = 1;
    assert_eq!(payload_offset(&icmp), None);
}
