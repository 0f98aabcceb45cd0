use pfsnitch::addr::IpAddr;
use pfsnitch::kernattr::{
    attr_query_cmd, decode_reply, device_gone, encode_query, encode_verdict, verdict_flush_cmd,
    verdict_push_cmd, ByteOrder, ATTR_LEN, VERDICT_LEN,
};
use pfsnitch::procinfo::{Confidence, Tuple};

fn ip(s: &str) -> IpAddr {
    IpAddr::parse(s).unwrap()
}

fn flow(proto: u8, src: &str, dst: &str) -> Tuple {
    Tuple { proto, src: ip(src), sport: 0x1234, dst: ip(dst), dport: 443 }
}

#[test]
fn abi_layout_matches_the_c_header() {
    assert_eq!(ATTR_LEN, 1108);
    assert_eq!(encode_query(ByteOrder::Little, &flow(6, "10.0.0.2", "1.1.1.1")).unwrap().len(), 1108);
    assert_eq!(attr_query_cmd(), 0xC454_4601);
}

#[test]
fn verdict_abi_layout_matches_the_c_header() {
    assert_eq!(VERDICT_LEN, 1052);
    let v = encode_verdict(ByteOrder::Little, 6, &ip("1.1.1.1"), 443, "/bin/a", true).unwrap();
    assert_eq!(v.len(), 1052);
    assert_eq!(verdict_push_cmd(), 0x841C_4602);
    assert_eq!(verdict_flush_cmd(), 0x2000_4603);
}

#[test]
fn queries_are_laid_out_field_by_field() {
    let q = encode_query(ByteOrder::Little, &flow(17, "10.0.0.2", "1.2.3.4")).unwrap();
    assert_eq!(&q[..12], &[1, 0, 0, 0, 4, 17, 0x12, 0x34, 0x01, 0xbb, 0, 0]);
    assert_eq!(&q[12..28], &[10, 0, 0, 2, 0, 0, 0, 0, 0, 0, 0, 0, 0, 0, 0, 0]);
    assert_eq!(&q[28..32], &[1, 2, 3, 4]);
    assert!(q[32..].iter().all(|b| *b == 0));
    let big = encode_query(ByteOrder::Big, &flow(6, "2606::1", "2606::2")).unwrap();
    assert_eq!(&big[..6], &[0, 0, 0, 1, 6, 6]);
    assert_eq!((big[12], big[13], big[27], big[43]), (0x26, 0x06, 1, 2));
    assert!(encode_query(ByteOrder::Little, &flow(1, "10.0.0.2", "1.1.1.1")).is_none());
    assert!(encode_query(ByteOrder::Little, &flow(6, "10.0.0.2", "::1")).is_none());
}

#[test]
fn replies_name_the_owner() {
    let mut b = vec![0u8; ATTR_LEN];
    assert!(decode_reply(ByteOrder::Little, &b).is_none(), "a miss is no owner");
    b[44] = 1;
    b[48..52].copy_from_slice(&[0x39, 0x30, 0, 0]);
    b[60..64].copy_from_slice(b"curl");
    b[84..97].copy_from_slice(b"/usr/bin/curl");
    let a = decode_reply(ByteOrder::Little, &b).unwrap();
    assert_eq!((a.owner.pid, a.owner.command.as_str(), a.owner.path.as_str()), (12345, "curl", "/usr/bin/curl"));
    assert_eq!(a.confidence, Confidence::Kernel);
    b[84] = 0;
    assert_eq!(decode_reply(ByteOrder::Little, &b).unwrap().owner.path, "<unknown:curl>");
    b[48..52].copy_from_slice(&[0xff; 4]);
    assert_eq!(decode_reply(ByteOrder::Big, &b).unwrap().owner.pid, -1);
    b[60] = 0xff;
    assert_eq!(decode_reply(ByteOrder::Little, &b).unwrap().owner.command, "\u{fffd}url");
}

#[test]
fn verdicts_are_laid_out_field_by_field() {
    let v = encode_verdict(ByteOrder::Little, 6, &ip("1.2.3.4"), 443, "/bin/a", true).unwrap();
    assert_eq!(&v[..12], &[1, 0, 0, 0, 4, 6, 0x01, 0xbb, 1, 2, 3, 4]);
    assert_eq!(&v[24..35], &[1, 0, 0, 0, b'/', b'b', b'i', b'n', b'/', b'a', 0]);
    let d = encode_verdict(ByteOrder::Little, 6, &ip("1.2.3.4"), 443, "/bin/a", false).unwrap();
    assert_eq!(d[24], 2);
    let long = "x".repeat(1023);
    assert!(encode_verdict(ByteOrder::Little, 6, &ip("::1"), 1, &long, true).is_some());
    let longer = "x".repeat(1024);
    assert!(encode_verdict(ByteOrder::Little, 6, &ip("::1"), 1, &longer, true).is_none());
    assert!(encode_verdict(ByteOrder::Little, 6, &ip("::1"), 1, "", true).is_none());
    assert!(encode_verdict(ByteOrder::Little, 58, &ip("::1"), 1, "/a", true).is_none());
}

#[test]
fn some_errors_mean_the_device_is_gone() {
    for e in [6, 9, 19, 25] {
        assert!(device_gone(Some(e)), "{e}");
    }
    for e in [1, 2, 22] {
        assert!(!device_gone(Some(e)), "{e}");
    }
    assert!(!device_gone(None));
}

#[test]
fn no_two_verdicts_share_a_message() {
    let enc = |dst: &str, port: u16, path: &str| {
        encode_verdict(ByteOrder::Little, 6, &ip(dst), port, path, true).unwrap()
    };
    let all = vec![
        enc("1.2.3.4", 443, "/bin/a"),
        enc("1.2.3.5", 443, "/bin/a"),
        enc("1.2.3.4", 80, "/bin/a"),
        enc("1.2.3.4", 443, "/bin/ab"),
        enc("102:304::", 443, "/bin/a"),
    ];
    for i in 0..all.len() {
        for j in 0..i {
            assert_ne!(all[i], all[j]);
        }
    }
}
