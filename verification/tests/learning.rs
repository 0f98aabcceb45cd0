//! Names from DNS answers, hashes of binaries, and the last-seen table.
use pfsnitch::addr::IpAddr;
use pfsnitch::dns::{parse_response, read_name, DnsCache};
use pfsnitch::identity::Identity;
use pfsnitch::seen::{ago, ago_at, load, now, seconds, Seen};

fn header(qd: u8, an: u8) -> Vec<u8> {
    vec![0, 1, 0x81, 0x80, 0, qd, 0, an, 0, 0, 0, 0]
}

fn name(b: &mut Vec<u8>, n: &str) {
    for label in n.split('.') {
        b.push(label.len() as u8);
        b.extend_from_slice(label.as_bytes());
    }
    b.push(0);
}

fn record(b: &mut Vec<u8>, rtype: u8, data: &[u8]) {
    b.extend_from_slice(&[0xc0, 12, 0, rtype, 0, 1, 0, 0, 0, 60, 0, data.len() as u8]);
    b.extend_from_slice(data);
}

fn response(n: &str, an: u8) -> Vec<u8> {
    let mut b = header(1, an);
    name(&mut b, n);
    b.extend_from_slice(&[0, 1, 0, 1]);
    b
}

const A1: IpAddr = IpAddr::V4(1, 2, 3, 4);

#[test]
fn answers_are_filed_under_the_question() {
    let mut b = response("www.Example.com", 4);
    record(&mut b, 5, b"\x03cdn\x00");
    record(&mut b, 1, &[1, 2, 3, 4]);
    let mut v6 = [0u8; 16];
    v6[0] = 0x26;
    v6[15] = 1;
    record(&mut b, 28, &v6);
    record(&mut b, 1, &[9, 9]);
    let (n, ips) = parse_response(&b).unwrap();
    assert_eq!(n, "www.Example.com");
    assert_eq!(ips, vec![A1, IpAddr::parse("2600::1").unwrap()]);
}

#[test]
fn what_is_no_answer_is_ignored() {
    let mut b = response("example.com", 1);
    record(&mut b, 1, &[1, 2, 3, 4]);
    assert!(parse_response(&b).is_some());
    let mut query = b.clone();
    query[2] = 0x01;
    assert!(parse_response(&query).is_none(), "a query teaches nothing");
    assert!(parse_response(&b[..11]).is_none());
    let mut empty = b.clone();
    empty[7] = 0;
    assert!(parse_response(&empty).is_none());
    let mut none = b.clone();
    none[5] = 0;
    assert!(parse_response(&none).is_none());
    assert!(parse_response(&b[..b.len() - 1]).is_none(), "the only address is cut off");
    let mut cname = response("example.com", 1);
    record(&mut cname, 5, b"\x03cdn\x00");
    assert!(parse_response(&cname).is_none());
}

#[test]
fn what_was_read_before_the_cut_is_kept() {
    let mut b = response("example.com", 2);
    record(&mut b, 1, &[1, 2, 3, 4]);
    record(&mut b, 1, &[5, 6, 7, 8]);
    let cut = &b[..b.len() - 1];
    assert_eq!(parse_response(cut).unwrap().1, vec![A1]);
}

#[test]
fn further_questions_are_skipped() {
    let mut b = header(2, 1);
    name(&mut b, "a.example");
    b.extend_from_slice(&[0, 1, 0, 1]);
    name(&mut b, "b.example");
    b.extend_from_slice(&[0, 1, 0, 1]);
    record(&mut b, 1, &[1, 2, 3, 4]);
    assert_eq!(parse_response(&b).unwrap(), ("a.example".to_string(), vec![A1]));
}

#[test]
fn names_may_be_compressed() {
    let mut b = vec![];
    name(&mut b, "example.com");
    let here = b.len();
    b.extend_from_slice(&[3, b'w', b'w', b'w', 0xc0, 0]);
    assert_eq!(read_name(&b, here), Some(("www.example.com".to_string(), here + 6)));
    assert_eq!(read_name(&b, 0), Some(("example.com".to_string(), here)));
    assert_eq!(read_name(&[0], 0), Some((String::new(), 1)));
    assert_eq!(read_name(&b, b.len()), None);
    assert_eq!(read_name(&[3, b'a'], 0), None);
    assert_eq!(read_name(&[0xc0], 0), None);
    assert_eq!(read_name(&[0xc0, 9], 0), None);
}

#[test]
fn pointer_loops_are_refused() {
    assert_eq!(read_name(&[0xc0, 0], 0), None);
    assert_eq!(read_name(&[0xc0, 2, 0xc0, 0], 0), None);
}

#[test]
fn sixteen_jumps_are_the_most() {
    // Pointers that each lead to the one before, down to an empty name.
    let mut b = vec![0u8];
    let mut at = 0u8;
    for _ in 0..17 {
        let next = b.len() as u8;
        b.extend_from_slice(&[0xc0, at]);
        at = next;
    }
    assert_eq!(read_name(&b, 31), Some((String::new(), 33)));
    assert_eq!(read_name(&b, 33), None);
}

#[test]
fn labels_that_are_no_text_are_repaired() {
    assert_eq!(read_name(&[2, 0xff, b'a', 0], 0), Some(("\u{fffd}a".to_string(), 4)));
    assert_eq!(read_name(&[2, 0xc3, 0xbc, 0], 0), Some(("\u{fc}".to_string(), 4)));
}

#[test]
fn the_last_name_of_an_address_counts() {
    let mut c = DnsCache::new();
    assert_eq!(c.len(), 0);
    for n in ["a.example", "b.example"] {
        let mut b = response(n, 1);
        record(&mut b, 1, &[1, 2, 3, 4]);
        c.observe(&b, 0);
    }
    assert_eq!(c.name_for(&A1), Some("b.example"));
    assert_eq!(c.len(), 1);
    assert_eq!(c.name_for(&IpAddr::V4(1, 2, 3, 5)), None);
    c.observe(b"junk", 0);
    assert_eq!(c.len(), 1);
}

#[test]
fn a_full_cache_drops_what_is_old() {
    let mut c = DnsCache::new();
    let hour = 3_600_000_000_000u64;
    for i in 0..4096u32 {
        let mut b = response("old.example", 1);
        record(&mut b, 1, &[10, 0, (i >> 8) as u8, i as u8]);
        c.observe(&b, 0);
    }
    assert_eq!(c.len(), 4096);
    let mut b = response("new.example", 1);
    record(&mut b, 1, &[1, 2, 3, 4]);
    c.observe(&b, hour);
    assert_eq!(c.len(), 1);
    assert_eq!(c.name_for(&A1), Some("new.example"));
}

#[test]
fn a_binary_is_hashed_once() {
    let mut id = Identity::new();
    assert_eq!(id.cached("/bin/a", 1, 2), None);
    assert_eq!(id.hash("/bin/a", 1, 2, Some(b"  cafe\n")).as_deref(), Some("cafe"));
    assert_eq!(id.cached("/bin/a", 1, 2).as_deref(), Some("cafe"));
    assert_eq!(id.hash("/bin/a", 1, 2, None).as_deref(), Some("cafe"), "no second run is needed");
    assert_eq!(id.cached("/bin/a", 3, 2), None, "another time");
    assert_eq!(id.cached("/bin/a", 1, 3), None, "another size");
    assert_eq!(id.hash("/bin/a", 3, 2, None), None);
    assert_eq!(id.hash("/bin/a", 3, 2, Some(b"\n")), None);
    assert_eq!(id.cached("/bin/a", 1, 2).as_deref(), Some("cafe"), "a failure changes nothing");
    assert_eq!(id.hash("/bin/b", 1, 2, Some(&[0xff])).as_deref(), Some("\u{fffd}"));
}

#[test]
fn the_table_survives_a_restart() {
    let mut s = Seen::new("");
    assert_eq!(s.flush(0, 0), None, "nothing has changed");
    s.touch_at("/bin/my app", "Example.COM", 100);
    s.touch_at("/bin/my app", "example.com", 200);
    s.touch_at("", "example.com", 300);
    s.touch_at("/bin/a", "", 300);
    s.touch_at("/bin/a", "-", 300);
    let text = s.flush(0, 0).unwrap();
    assert_eq!(text, "200\texample.com\t/bin/my app\n");
    let t = load(&text);
    assert_eq!(t.get(&("/bin/my app".to_string(), "example.com".to_string())), Some(&200));
    assert_eq!(t.len(), 1);
    assert!(Seen::new(&text).flush(0, 0).is_none());
}

#[test]
fn a_restart_forgets_no_name_outside_ascii() {
    let mut s = Seen::new("");
    s.touch_at("/bin/a", "B\u{dc}CHER.example", 5);
    s.touch_at("/bin/a", "\u{3a3}\u{391}\u{3a3}.example", 6);
    s.touch_at("/bin/a", "\u{130}.example", 7);
    let text = s.flush(0, 0).unwrap();
    let t = load(&text);
    assert_eq!(t.len(), 3);
    for (name, time) in [
        ("B\u{dc}CHER.example", 5u64),
        ("\u{3a3}\u{391}\u{3a3}.example", 6),
        ("\u{130}.example", 7),
    ] {
        assert_eq!(t.get(&("/bin/a".to_string(), name.to_lowercase())), Some(&time));
    }
}

#[test]
fn unreadable_rows_are_skipped() {
    let t = load("x\ty\tz\n12\tonly two\n+7\tHost\t/bin/a\n8\th\t/bin/b\tc\n-1\th\t/bin/d\n18446744073709551616\th\t/bin/e\n");
    assert_eq!(t.len(), 2);
    assert_eq!(t.get(&("/bin/a".to_string(), "host".to_string())), Some(&7));
    assert_eq!(t.get(&("/bin/b\tc".to_string(), "h".to_string())), Some(&8));
}

#[test]
fn the_table_is_written_now_and_then() {
    let mut s = Seen::new("");
    s.touch_at("/bin/a", "h", 1);
    assert!(s.flush(10, 100).is_some());
    assert!(s.flush(10, 500).is_none(), "nothing new");
    s.touch_at("/bin/a", "h", 2);
    assert!(s.flush(10, 109).is_none(), "too soon");
    assert!(s.flush(10, 110).is_some());
}

#[test]
fn ages_are_short() {
    let n = 1_000_000u64;
    assert_eq!(ago_at(None, n), "never");
    assert_eq!(ago_at(Some(0), n), "never");
    assert_eq!(ago_at(Some(n + 1), n), "just now");
    assert_eq!(ago_at(Some(n), n), "0s ago");
    assert_eq!(ago_at(Some(n - 59), n), "59s ago");
    assert_eq!(ago_at(Some(n - 60), n), "1m ago");
    assert_eq!(ago_at(Some(n - 3599), n), "59m ago");
    assert_eq!(ago_at(Some(n - 3600), n), "1h ago");
    assert_eq!(ago_at(Some(n - 86399), n), "23h ago");
    assert_eq!(ago_at(Some(n - 86400), n), "1d ago");
}

#[test]
fn the_clock_runs() {
    assert!(now() > 1_600_000_000);
    assert_eq!((seconds(Some(7)), seconds(None)), (7, 0));
    assert_eq!(ago(None), "never");
    assert!(["0s ago", "1s ago", "2s ago"].contains(&ago(Some(now())).as_str()));
    let mut s = Seen::new("");
    s.touch("/bin/a", "h");
    let text = s.flush(0, 0).unwrap();
    let first: u64 = text.split('\t').next().unwrap().parse().unwrap();
    assert!(first > 1_600_000_000);
}
