use pfsnitch::target::{join_target, split_target};

fn t(host: &str, port: Option<u16>) -> (String, Option<u16>) {
    (host.to_string(), port)
}

#[test]
fn plain_hostname_means_any_port() {
    assert_eq!(split_target("example.com"), t("example.com", None));
}

#[test]
fn hostname_with_port() {
    assert_eq!(split_target("example.com:443"), t("example.com", Some(443)));
}

#[test]
fn bare_ipv6_is_not_mistaken_for_a_port() {
    assert_eq!(split_target("2606:4700:4700::1111"), t("2606:4700:4700::1111", None));
}

#[test]
fn bracketed_ipv6_with_port() {
    assert_eq!(split_target("[2606:4700:4700::1111]:853"), t("2606:4700:4700::1111", Some(853)));
}

#[test]
fn bracketed_ipv6_without_port() {
    assert_eq!(split_target("[2606:4700:4700::1111]"), t("2606:4700:4700::1111", None));
}

#[test]
fn ipv4_with_and_without_port() {
    assert_eq!(split_target("1.1.1.1"), t("1.1.1.1", None));
    assert_eq!(split_target("1.1.1.1:53"), t("1.1.1.1", Some(53)));
}

#[test]
fn a_port_that_is_not_a_number_stays_part_of_the_name() {
    assert_eq!(split_target("example.com:https"), t("example.com:https", None));
}

#[test]
fn round_trips() {
    for s in ["example.com", "example.com:443", "1.1.1.1:53", "[2606:4700::1111]:853"] {
        let (h, p) = split_target(s);
        assert_eq!(join_target(&h, p), s, "round trip failed for {s}");
    }
}

#[test]
fn ports_outside_the_range_are_no_ports() {
    assert_eq!(split_target("example.com:65535"), t("example.com", Some(65535)));
    assert_eq!(split_target("example.com:65536"), t("example.com:65536", None));
    assert_eq!(split_target("example.com:"), t("example.com:", None));
    assert_eq!(split_target("example.com:+80"), t("example.com", Some(80)));
    assert_eq!(split_target("a:b:80"), t("a:b:80", None));
}

#[test]
fn brackets_decide_first() {
    assert_eq!(split_target("[name]:80"), t("name", Some(80)));
    assert_eq!(split_target("[name]x"), t("name", None));
    assert_eq!(split_target("[name"), t("[name", None));
    assert_eq!(split_target("  example.com:1  "), t("example.com", Some(1)));
}
