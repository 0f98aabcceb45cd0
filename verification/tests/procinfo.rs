use pfsnitch::addr::IpAddr;
use pfsnitch::procinfo::{
    daemon_running, endpoint, is_daemon, owner_named, Confidence, Owner, SocketRow, Tables, Tuple,
};
use pfsnitch::resolver::Resolver;

fn own(pid: i32, name: &str) -> Owner {
    Owner { pid, command: name.into(), path: format!("/usr/sbin/{name}") }
}

fn v4(a: u8, b: u8, c: u8, d: u8) -> IpAddr {
    IpAddr::V4(a, b, c, d)
}

const UDP: u8 = 17;
const TCP: u8 = 6;

#[test]
fn exact_tuple_wins() {
    let mut t = Tables::new();
    let f = Tuple { proto: TCP, src: v4(10, 0, 0, 2), sport: 54614, dst: v4(1, 1, 1, 1), dport: 443 };
    t.insert_exact(f, own(100, "firefox"));

    let got = t.get(&f, true).expect("exact match");
    assert_eq!(got.confidence, Confidence::Exact);
    assert_eq!(got.owner.pid, 100);
}

#[test]
fn unconnected_socket_matches_on_local_address() {
    let mut t = Tables::new();
    t.insert_unconnected(UDP, v4(10, 0, 0, 2), 123, &own(200, "ntpd"));

    let f = Tuple { proto: UDP, src: v4(10, 0, 0, 2), sport: 123, dst: v4(198, 71, 50, 75), dport: 123 };
    let got = t.get(&f, true).expect("should attribute ntpd");
    assert_eq!(got.owner.command, "ntpd");
    assert_eq!(got.confidence, Confidence::Local);
}

#[test]
fn wildcard_bind_falls_back_to_port() {
    let mut t = Tables::new();
    t.insert_unconnected(UDP, v4(0, 0, 0, 0), 123, &own(200, "ntpd"));

    let f = Tuple { proto: UDP, src: v4(10, 0, 0, 2), sport: 123, dst: v4(198, 71, 50, 75), dport: 123 };
    let got = t.get(&f, true).expect("should fall back to the port tier");
    assert_eq!(got.owner.command, "ntpd");
    assert_eq!(got.confidence, Confidence::Port);
}

#[test]
fn same_pid_many_sockets_is_not_contested() {
    let mut t = Tables::new();
    let o = own(200, "ntpd");
    t.insert_unconnected(UDP, v4(0, 0, 0, 0), 123, &o);
    t.insert_unconnected(UDP, v4(127, 0, 0, 1), 123, &o);
    t.insert_unconnected(UDP, v4(10, 0, 0, 2), 123, &o);

    let f = Tuple { proto: UDP, src: v4(10, 0, 0, 2), sport: 123, dst: v4(1, 2, 3, 4), dport: 123 };
    assert_eq!(t.get(&f, true).unwrap().owner.command, "ntpd");
}

#[test]
fn contested_port_is_refused() {
    let mut t = Tables::new();
    t.insert_unconnected(UDP, v4(0, 0, 0, 0), 5353, &own(300, "avahi"));
    t.insert_unconnected(UDP, v4(0, 0, 0, 0), 5353, &own(301, "mdnsd"));

    let f = Tuple { proto: UDP, src: v4(10, 0, 0, 2), sport: 5353, dst: v4(224, 0, 0, 251), dport: 5353 };
    assert!(t.get(&f, true).is_none(), "ambiguous port must not be attributed");
}

#[test]
fn contested_local_address_is_refused() {
    let mut t = Tables::new();
    t.insert_unconnected(UDP, v4(10, 0, 0, 2), 9999, &own(400, "one"));
    t.insert_unconnected(UDP, v4(10, 0, 0, 2), 9999, &own(401, "two"));

    let f = Tuple { proto: UDP, src: v4(10, 0, 0, 2), sport: 9999, dst: v4(8, 8, 8, 8), dport: 53 };
    assert!(t.get(&f, true).is_none());
}

#[test]
fn inbound_packet_never_uses_weak_tiers() {
    let mut t = Tables::new();
    t.insert_unconnected(UDP, v4(0, 0, 0, 0), 53, &own(500, "unbound"));

    let reply = Tuple { proto: UDP, src: v4(8, 8, 8, 8), sport: 53, dst: v4(10, 0, 0, 2), dport: 54321 };
    assert!(t.get(&reply, false).is_none(), "must not attribute an inbound reply");
    assert!(t.get(&reply, true).is_some());
}

#[test]
fn exact_match_still_works_inbound() {
    let mut t = Tables::new();
    let f = Tuple { proto: TCP, src: v4(1, 1, 1, 1), sport: 443, dst: v4(10, 0, 0, 2), dport: 54614 };
    t.insert_exact(f, own(100, "firefox"));
    assert_eq!(t.get(&f, false).unwrap().confidence, Confidence::Exact);
}

#[test]
fn stronger_tier_wins() {
    let mut t = Tables::new();
    let f = Tuple { proto: UDP, src: v4(10, 0, 0, 2), sport: 123, dst: v4(198, 71, 50, 75), dport: 123 };
    t.insert_exact(f, own(100, "the-real-sender"));
    t.insert_unconnected(UDP, v4(10, 0, 0, 2), 123, &own(200, "ntpd"));

    let got = t.get(&f, true).unwrap();
    assert_eq!(got.owner.command, "the-real-sender");
    assert_eq!(got.confidence, Confidence::Exact);
}

#[test]
fn protocol_is_part_of_the_key() {
    let mut t = Tables::new();
    t.insert_unconnected(UDP, v4(10, 0, 0, 2), 123, &own(200, "ntpd"));

    let tcp = Tuple { proto: TCP, src: v4(10, 0, 0, 2), sport: 123, dst: v4(1, 2, 3, 4), dport: 80 };
    assert!(t.get(&tcp, true).is_none());
}

#[test]
fn confidence_strings_are_stable() {
    assert_eq!(Confidence::Kernel.as_str(), "kernel");
    assert_eq!(Confidence::Exact.as_str(), "exact");
    assert_eq!(Confidence::Local.as_str(), "local");
    assert_eq!(Confidence::Port.as_str(), "port");
}

#[test]
fn entries_skips_contested_keys() {
    let mut t = Tables::new();
    t.insert_unconnected(UDP, v4(0, 0, 0, 0), 5353, &own(300, "avahi"));
    t.insert_unconnected(UDP, v4(0, 0, 0, 0), 5353, &own(301, "mdnsd"));
    assert_eq!(t.entries().len(), 0);
}

#[test]
fn entries_does_not_double_count_one_socket() {
    let mut t = Tables::new();
    t.insert_unconnected(UDP, v4(10, 0, 0, 2), 123, &own(200, "ntpd"));
    let rows = t.entries();
    assert_eq!(rows.len(), 1);
    assert_eq!(rows[0].confidence, Confidence::Local);
}

#[test]
fn a_scan_fills_every_tier() {
    let far = v4(1, 1, 1, 1);
    let here = v4(10, 0, 0, 2);
    let rows = vec![
        SocketRow { owner: own(1, "web"), proto: TCP, local: Some((here, 4000)), peer: Some((far, 443)) },
        SocketRow { owner: own(2, "ntpd"), proto: UDP, local: Some((here, 123)), peer: None },
        SocketRow { owner: own(3, "mdns"), proto: UDP, local: Some((v4(0, 0, 0, 0), 5353)), peer: None },
        SocketRow { owner: own(4, "odd"), proto: UDP, local: None, peer: Some((far, 1)) },
    ];
    let t = Tables::from_sockets(&rows);
    assert_eq!(t.len(), 3);
    assert!(!t.is_empty());
    let f = Tuple { proto: TCP, src: here, sport: 4000, dst: far, dport: 443 };
    assert_eq!(t.get(&f, false).unwrap().owner.pid, 1);
    let wild = Tuple { proto: UDP, src: v4(10, 0, 0, 9), sport: 5353, dst: far, dport: 1 };
    assert_eq!(t.get(&wild, true).unwrap().confidence, Confidence::Port);
    let other = Tuple { proto: UDP, src: v4(10, 0, 0, 9), sport: 123, dst: far, dport: 123 };
    assert_eq!(t.get(&other, true).unwrap().owner.command, "ntpd");
    assert!(Tables::from_sockets(&[]).is_empty());
}

#[test]
fn a_resolver_scans_once_per_miss() {
    let f = Tuple { proto: TCP, src: v4(10, 0, 0, 2), sport: 1, dst: v4(1, 1, 1, 1), dport: 2 };
    let mut r = Resolver::new();
    let mut scans = 0;
    for at in [0u64, 10, 750_000_000] {
        r.resolve(&f, true, at, || {
            scans += 1;
            Tables::new()
        });
    }
    assert_eq!(scans, 1, "a flow that was missed is not looked for again at once");
    let got = r.resolve(&f, true, 750_000_001, || {
        let mut t = Tables::new();
        t.insert_exact(f, own(7, "late"));
        t
    });
    assert_eq!(got.unwrap().owner.pid, 7);
    let mut again = 0;
    let owner = r.owner(&f, u64::MAX, || {
        again += 1;
        Tables::new()
    });
    assert_eq!(owner.unwrap().command, "late");
    assert_eq!(again, 0, "a flow that is known needs no scan, however old the tables are");
}

#[test]
fn endpoints_of_either_family() {
    let mut sa = vec![16u8, 2, 0x01, 0xbb, 10, 0, 0, 2];
    sa.resize(128, 0);
    assert_eq!(endpoint(&sa), Some((v4(10, 0, 0, 2), 443)));
    sa[2] = 0;
    sa[3] = 0;
    assert_eq!(endpoint(&sa), None, "an unbound socket has nothing to key on");
    let mut sa6 = vec![28u8, 28, 0, 53, 0, 0, 0, 0, 0x26, 0x06, 0x47, 0];
    sa6.resize(128, 0);
    sa6[23] = 1;
    assert_eq!(endpoint(&sa6), Some((IpAddr::parse("2606:4700::1").unwrap(), 53)));
    sa6[1] = 1;
    assert_eq!(endpoint(&sa6), None);
}

#[test]
fn a_process_without_a_binary_is_known_as_such() {
    assert_eq!(owner_named(1, "sh".into(), "/bin/sh".into()).path, "/bin/sh");
    assert_eq!(owner_named(1, "sh".into(), "".into()).path, "<unknown:sh>");
}

#[test]
fn daemons_are_told_by_their_arguments() {
    let line = |s: &str| -> Vec<String> { s.split(' ').map(|w| w.to_string()).collect() };
    for yes in [
        "/usr/local/sbin/pfsnitch visibility",
        "pfsnitch enforcement",
        "./pfsnitch listen x y",
        "/pfsnitch enforce",
    ] {
        assert!(is_daemon(&line(yes)), "{yes}");
    }
    for no in ["pfsnitch status", "pfsnitch", "pfsnitch-prompt visibility", "vi pfsnitch", "pfsnitch observe"] {
        assert!(!is_daemon(&line(no)), "{no}");
    }
    let procs = vec![(10, line("sh")), (11, line("pfsnitch enforce"))];
    assert!(daemon_running(&procs, 1));
    assert!(!daemon_running(&procs, 11), "the process that asks does not count");
    assert!(!daemon_running(&[], 1));
}

#[test]
fn flows_that_nobody_owns_cost_one_scan_each() {
    let t1 = Tuple { proto: TCP, src: v4(10, 0, 0, 2), sport: 1, dst: v4(1, 1, 1, 1), dport: 2 };
    let t2 = Tuple { sport: 3, ..t1 };
    let mut r = Resolver::new();
    let mut scans = 0;
    for round in 0..20u64 {
        for t in [&t1, &t2] {
            let got = r.resolve(t, true, round * 30_000_000, || {
                scans += 1;
                Tables::new()
            });
            assert!(got.is_none());
        }
    }
    assert_eq!(scans, 2);
    // Once the tables are stale one walk renews them for both.
    for t in [&t1, &t2, &t1] {
        r.resolve(t, true, 1_000_000_000, || {
            scans += 1;
            Tables::new()
        });
    }
    assert_eq!(scans, 3);
}

#[test]
fn misses_of_long_ago_are_forgotten() {
    let t = |sport: u16| Tuple { proto: TCP, src: v4(10, 0, 0, 2), sport, dst: v4(1, 1, 1, 1), dport: 2 };
    let mut r = Resolver::new();
    for i in 0..50u16 {
        r.resolve(&t(i), true, i as u64 * 500_000_000, Tables::new);
    }
    assert_eq!(r.missed.len(), 2);
}

#[test]
fn sockets_are_reported_once_in_any_order() {
    let here = v4(10, 0, 0, 2);
    let row = |pid: i32, local: IpAddr, port: u16, peer: Option<(IpAddr, u16)>| SocketRow {
        owner: own(pid, "p"),
        proto: UDP,
        local: Some((local, port)),
        peer,
    };
    let make = || {
        vec![
            row(1, here, 53, None),
            row(1, v4(0, 0, 0, 0), 53, None),
            row(2, here, 60, None),
            row(3, here, 60, None),
            row(4, v4(0, 0, 0, 0), 70, None),
            row(4, v4(0, 0, 0, 0), 70, None),
            row(5, here, 80, Some((v4(1, 1, 1, 1), 1))),
        ]
    };
    let mut backwards = make();
    backwards.reverse();
    for rows in [make(), backwards] {
        let mut got: Vec<(u16, &str, bool)> = Vec::new();
        let entries = Tables::from_sockets(&rows).entries();
        for e in &entries {
            got.push((e.lport, e.confidence.as_str(), e.peer.is_some()));
        }
        got.sort();
        assert_eq!(got, vec![(53, "local", false), (70, "port", false), (80, "exact", true)]);
    }
}
