use pfsnitch::addr::IpAddr;

fn text(s: &str) -> Option<String> {
    IpAddr::parse(s).map(|a| a.to_text())
}

#[test]
fn v4_addresses_have_one_spelling() {
    assert_eq!(IpAddr::parse("203.0.113.9"), Some(IpAddr::V4(203, 0, 113, 9)));
    assert_eq!(text("0.0.0.0").as_deref(), Some("0.0.0.0"));
    assert_eq!(text("255.255.255.255").as_deref(), Some("255.255.255.255"));
    for bad in ["", "1.2.3", "1.2.3.4.5", "256.1.1.1", "01.2.3.4", "1.2.3.4 ", "1..2.3", "a.b.c.d"] {
        assert_eq!(text(bad), None, "{bad:?}");
    }
}

#[test]
fn v6_addresses_are_compressed() {
    assert_eq!(text("2606:0:0::1").as_deref(), Some("2606::1"));
    assert_eq!(text("::").as_deref(), Some("::"));
    assert_eq!(text("::1").as_deref(), Some("::1"));
    assert_eq!(text("1::").as_deref(), Some("1::"));
    assert_eq!(text("FE80::ABCD").as_deref(), Some("fe80::abcd"));
    assert_eq!(text("1:0:0:2:0:0:0:3").as_deref(), Some("1:0:0:2::3"));
    assert_eq!(text("1:0:2:3:4:5:6:7").as_deref(), Some("1:0:2:3:4:5:6:7"));
    assert_eq!(text("0:0:1:0:0:2:0:0").as_deref(), Some("::1:0:0:2:0:0"));
    assert_eq!(text("::ffff:1.2.3.4").as_deref(), Some("::ffff:1.2.3.4"));
    assert_eq!(text("::ffff:102:304").as_deref(), Some("::ffff:1.2.3.4"));
    assert_eq!(text("64:ff9b::1.2.3.4").as_deref(), Some("64:ff9b::102:304"));
}

#[test]
fn what_is_no_address_is_refused() {
    for bad in [
        ":", ":::", "1::2::3", "1:2:3:4:5:6:7", "1:2:3:4:5:6:7:8:9", "12345::", "g::", "1:2:3:4:5:6:7::8",
        "::1.2.3", "1.2.3.4::", "[::1]", "::1%em0",
    ] {
        assert_eq!(text(bad), None, "{bad:?}");
    }
}

#[test]
fn every_spelling_reads_back() {
    for s in [
        "10.0.0.2", "2001:4860::8888", "2606:2800:220:1::248", "::ffff:0.0.0.0", "fe80::1:0:0:1",
        "1:2:3:4:5:6:7:8", "::2:3:4:5:6:7:8", "1:2:3:4:5:6:7:0",
    ] {
        let a = IpAddr::parse(s).unwrap();
        assert_eq!(IpAddr::parse(&a.to_text()), Some(a), "{s}");
    }
}

#[test]
fn unspecified_addresses() {
    assert!(IpAddr::parse("0.0.0.0").unwrap().is_unspecified());
    assert!(IpAddr::parse("::").unwrap().is_unspecified());
    assert!(!IpAddr::parse("::1").unwrap().is_unspecified());
    assert!(!IpAddr::parse("0.0.0.1").unwrap().is_unspecified());
}
