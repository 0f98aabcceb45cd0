use pfsnitch::addr::IpAddr;
use pfsnitch::daemon::{
    ask_key, backend_step, dispose, log_line, pending, pins_identity, prompt_args, read_answer,
    Action, BackendStep, Daemon, Fate, Pending, Prompt, Step, Upcall, UpcallSwitch,
};
use pfsnitch::procinfo::{Attribution, Confidence, Owner, Tuple};
use pfsnitch::words::{Answer, AttributionMode, Mode, Verdict};

fn ip(a: u8, b: u8, c: u8, d: u8) -> IpAddr {
    IpAddr::V4(a, b, c, d)
}

#[test]
fn one_name_on_many_addresses_is_one_question() {
    let a = ask_key(Some("example.org"), &ip(104, 20, 26, 136));
    let b = ask_key(Some("example.org"), &ip(172, 66, 157, 237));
    assert_eq!(a, b);
}

#[test]
fn different_names_stay_separate() {
    assert_ne!(
        ask_key(Some("example.org"), &ip(1, 2, 3, 4)),
        ask_key(Some("example.com"), &ip(1, 2, 3, 4))
    );
}

#[test]
fn without_a_name_the_address_is_the_key() {
    assert_eq!(ask_key(None, &ip(1, 2, 3, 4)), "1.2.3.4");
    assert_ne!(ask_key(None, &ip(1, 2, 3, 4)), ask_key(None, &ip(1, 2, 3, 5)));
}

#[test]
fn placeholder_hostnames_are_not_names() {
    assert_eq!(ask_key(Some("-"), &ip(1, 2, 3, 4)), "1.2.3.4");
    assert_eq!(ask_key(Some(""), &ip(1, 2, 3, 4)), "1.2.3.4");
    assert_ne!(ask_key(Some("-"), &ip(1, 2, 3, 4)), ask_key(Some("-"), &ip(5, 6, 7, 8)));
}

#[test]
fn names_are_matched_case_insensitively() {
    assert_eq!(
        ask_key(Some("Example.ORG"), &ip(1, 2, 3, 4)),
        ask_key(Some("example.org"), &ip(9, 9, 9, 9))
    );
}

#[test]
fn address_family_does_not_split_a_name() {
    let v6: IpAddr = IpAddr::parse("2606:2800:220:1::248").unwrap();
    assert_eq!(ask_key(Some("example.org"), &v6), ask_key(Some("example.org"), &ip(1, 2, 3, 4)));
}

const APP: &str = "/usr/local/bin/someapp";
const ME: IpAddr = IpAddr::V4(10, 0, 0, 2);
const FAR: IpAddr = IpAddr::V4(93, 184, 216, 34);

fn octets(a: IpAddr) -> [u8; 4] {
    match a {
        IpAddr::V4(a, b, c, d) => [a, b, c, d],
        IpAddr::V6(..) => panic!("a v4 address is wanted here"),
    }
}

/// An IPv4 packet that carries `body`.
fn packet(proto: u8, src: IpAddr, dst: IpAddr, body: &[u8]) -> Vec<u8> {
    let len = 20 + body.len();
    let mut p = vec![0x45, 0, (len >> 8) as u8, len as u8, 0, 0, 0, 0, 64, proto, 0, 0];
    p.extend_from_slice(&octets(src));
    p.extend_from_slice(&octets(dst));
    p.extend_from_slice(body);
    p
}

fn tcp(sport: u16, dport: u16, flags: u8) -> Vec<u8> {
    let mut b = vec![];
    b.extend_from_slice(&sport.to_be_bytes());
    b.extend_from_slice(&dport.to_be_bytes());
    b.extend_from_slice(&[0, 0, 0, 1, 0, 0, 0, 0, 0x50, flags, 0, 0, 0, 0, 0, 0]);
    packet(6, ME, FAR, &b)
}

fn syn(sport: u16) -> Vec<u8> {
    tcp(sport, 443, 0x02)
}

fn udp(src: IpAddr, sport: u16, dst: IpAddr, dport: u16, payload: &[u8]) -> Vec<u8> {
    let mut b = vec![];
    b.extend_from_slice(&sport.to_be_bytes());
    b.extend_from_slice(&dport.to_be_bytes());
    b.extend_from_slice(&((8 + payload.len()) as u16).to_be_bytes());
    b.extend_from_slice(&[0, 0]);
    b.extend_from_slice(payload);
    packet(17, src, dst, &b)
}

/// A response that says `name` is at `addr`.
fn dns_response(name: &str, addr: IpAddr) -> Vec<u8> {
    let mut b = vec![0, 1, 0x81, 0x80, 0, 1, 0, 1, 0, 0, 0, 0];
    for label in name.split('.') {
        b.push(label.len() as u8);
        b.extend_from_slice(label.as_bytes());
    }
    b.push(0);
    b.extend_from_slice(&[0, 1, 0, 1]);
    b.extend_from_slice(&[0xc0, 12, 0, 1, 0, 1, 0, 0, 0, 60, 0, 4]);
    b.extend_from_slice(&octets(addr));
    b
}

fn app() -> Option<Attribution> {
    Some(Attribution {
        owner: Owner { pid: 77, command: "someapp".into(), path: APP.into() },
        confidence: Confidence::Exact,
    })
}

fn flow(sport: u16) -> Tuple {
    Tuple { proto: 6, src: ME, sport, dst: FAR, dport: 443 }
}

fn taught(text: &str, fallback: Mode) -> Daemon {
    let mut d = Daemon::new(text, "", fallback, 0);
    let reply = udp(IpAddr::V4(9, 9, 9, 9), 53, ME, 4000, &dns_response("example.com", FAR));
    assert_eq!(d.look(&reply, true, 0), Step::Done(Fate::Forward));
    d
}

fn asked(host: Option<&str>) -> Pending {
    Pending { exe: Some(APP.into()), host: host.map(|h| h.to_string()), dst: FAR, dport: 443 }
}

#[test]
fn the_file_decides_the_mode() {
    assert_eq!(Daemon::new("", "", Mode::Enforcement, 0).mode, Mode::Enforcement);
    assert_eq!(Daemon::new("mode visibility\n", "", Mode::Enforcement, 0).mode, Mode::Visibility);
}

#[test]
fn only_attempts_are_attributed() {
    let mut d = Daemon::new("", "", Mode::Enforcement, 0);
    assert_eq!(d.look(&syn(5000), false, 0), Step::Attribute(flow(5000)));
    assert_eq!(d.look(&syn(5000), true, 0), Step::Done(Fate::Forward), "a reply is no attempt");
    assert_eq!(d.look(&tcp(5000, 443, 0x10), false, 0), Step::Done(Fate::Forward));
    assert_eq!(d.look(&tcp(5000, 443, 0x12), false, 0), Step::Done(Fate::Forward));
    assert_eq!(d.look(&[1, 2, 3], false, 0), Step::Done(Fate::Forward));
    let quic = udp(ME, 5000, FAR, 443, b"x");
    assert!(matches!(d.look(&quic, false, 0), Step::Attribute(t) if t.proto == 17));
    let reply = udp(FAR, 53, ME, 443, b"not a response");
    assert_eq!(d.look(&reply, false, 0), Step::Done(Fate::Forward));
    assert_eq!(d.names.len(), 0);
}

#[test]
fn a_question_is_asked_once() {
    let mut d = taught("default ask\n", Mode::Enforcement);
    let o = d.judge(&flow(5000), &app(), None, 1000);
    assert_eq!((o.verdict, o.fate), (Verdict::Ask, Fate::Hold));
    let p = o.prompt.expect("a prompt");
    assert_eq!(p.host.as_deref(), Some("example.com"));
    assert_eq!((p.pid, p.changed, p.scope.as_str()), (77, false, "exact"));
    assert_eq!((o.learned, o.push, o.changed), (None, None, None));
    assert_eq!(
        o.log.as_deref(),
        Some("Ask    10.0.0.2:5000 -> 93.184.216.34 (example.com) :443  someapp [77] /usr/local/bin/someapp (exact)")
    );
    // Thirty more sockets to the same name ask nothing new.
    for port in 5001..5031 {
        let o = d.judge(&flow(port), &app(), None, 1000);
        assert_eq!(o.fate, Fate::Hold);
        assert!(o.prompt.is_none());
    }
    // A retransmission is held again, unlogged, and nothing was settled.
    let o = d.judge(&flow(5000), &app(), None, 1000);
    assert!(o.log.is_none() && o.prompt.is_none());
    assert_eq!(d.look(&syn(5000), false, 0), Step::Attribute(flow(5000)));

    let s = d.answer(Answer::AllowConn, &asked(Some("example.com")), Some("ABC"));
    assert!(s.allow && s.resolve.is_empty());
    assert_eq!(
        s.identity.as_deref(),
        Some("app-id ABC\t/usr/local/bin/someapp\t# identity when approved")
    );
    assert_eq!(
        s.rule.as_deref(),
        Some("allow-host-from example.com:443\t/usr/local/bin/someapp\t# approved for /usr/local/bin/someapp")
    );
    let o = d.judge(&flow(5000), &app(), Some("abc"), 1001);
    assert_eq!((o.verdict, o.fate, o.push), (Verdict::Allow, Fate::Forward, Some(true)));
    assert_eq!(d.look(&syn(5000), false, 0), Step::Done(Fate::Forward));
}

#[test]
fn a_timeout_changes_no_rule_and_can_be_asked_again() {
    let mut d = taught("default ask\n", Mode::Enforcement);
    assert!(d.judge(&flow(5000), &app(), None, 0).prompt.is_some());
    let s = d.answer(Answer::Timeout, &asked(Some("example.com")), None);
    assert!(!s.allow && s.rule.is_none() && s.identity.is_none());
    let o = d.judge(&flow(5000), &app(), None, 0);
    assert_eq!(o.verdict, Verdict::Ask);
    assert!(o.prompt.is_some());
}

#[test]
fn denials_are_settled_and_reset() {
    let mut d = Daemon::new("default ask\ndeny-dest 93.184.216.34\n", "", Mode::Enforcement, 0);
    let o = d.judge(&flow(5000), &None, None, 0);
    assert_eq!((o.verdict, o.fate, o.push), (Verdict::Deny, Fate::Reject, None));
    assert_eq!(
        o.log.as_deref(),
        Some("Deny   10.0.0.2:5000 -> 93.184.216.34 (-) :443  <unattributed>")
    );
    assert_eq!(d.judge(&flow(5001), &app(), None, 0).push, Some(false));
    assert_eq!(d.look(&syn(5000), false, 0), Step::Done(Fate::Reject));

    let out = dispose(Mode::Enforcement, Fate::Reject, &syn(5000));
    match out {
        Action::Reset(rst) => {
            assert_eq!(&rst[12..20], &[93, 184, 216, 34, 10, 0, 0, 2], "it goes back to the sender");
            assert_eq!(rst[33] & 0x04, 0x04);
        }
        other => panic!("{other:?}"),
    }
    let quic = udp(ME, 5000, FAR, 443, b"x");
    assert!(matches!(dispose(Mode::Enforcement, Fate::Reject, &quic), Action::Drop));
    assert!(matches!(dispose(Mode::Enforcement, Fate::Hold, &syn(5000)), Action::Drop));
    assert!(matches!(dispose(Mode::Enforcement, Fate::Forward, &syn(5000)), Action::Forward));
    for fate in [Fate::Forward, Fate::Reject, Fate::Hold] {
        assert!(matches!(dispose(Mode::Visibility, fate, &syn(5000)), Action::Forward));
    }
}

#[test]
fn observing_learns_instead_of_asking() {
    let mut d = taught("default ask\n", Mode::Visibility);
    let o = d.judge(&flow(5000), &app(), None, 0);
    assert_eq!((o.verdict, o.fate), (Verdict::Ask, Fate::Forward));
    assert!(o.prompt.is_none());
    assert_eq!(
        o.learned.as_deref(),
        Some("allow-host-from example.com:443\t/usr/local/bin/someapp\t# learned from /usr/local/bin/someapp")
    );
    assert!(o.log.unwrap().starts_with("Learn  10.0.0.2:5000"));
    let o = d.judge(&flow(5001), &app(), None, 0);
    assert_eq!((o.verdict, o.learned, o.push), (Verdict::Allow, None, None));
}

#[test]
fn a_changed_binary_is_asked_about() {
    let text = "default ask\nallow-app /usr/local/bin/someapp\napp-id AAAA /usr/local/bin/someapp\n";
    let mut d = Daemon::new(text, "", Mode::Enforcement, 0);
    assert!(d.needs_hash(Some(APP)));
    assert!(!d.needs_hash(Some("/bin/other")));
    assert!(!d.needs_hash(None));
    assert_eq!(d.judge(&flow(1), &app(), Some("aaaa"), 0).verdict, Verdict::Allow);
    assert_eq!(d.judge(&flow(2), &app(), None, 0).verdict, Verdict::Allow, "unreadable is not changed");
    let o = d.judge(&flow(3), &app(), Some("bbbb"), 0);
    assert_eq!(o.verdict, Verdict::Ask);
    assert_eq!(o.changed.as_deref(), Some("aaaa"));
    assert!(o.prompt.unwrap().changed);
    assert!(d.judge(&flow(4), &app(), Some("bbbb"), 0).changed.is_none(), "told once");
    let s = d.answer(Answer::AllowApp, &asked(None), Some("bbbb"));
    assert_eq!(s.rule.as_deref(), Some("allow-app /usr/local/bin/someapp"));
    assert_eq!(d.judge(&flow(5), &app(), Some("bbbb"), 0).verdict, Verdict::Allow);
    assert_eq!(d.judge(&flow(6), &app(), Some("cccc"), 0).changed.as_deref(), Some("bbbb"));
}

#[test]
fn kernel_events_wait_for_their_answer() {
    let mut d = taught("default ask\ndeny-app /bin/bad\nallow-app /bin/good\n", Mode::Enforcement);
    let ev = |id: u64, path: &str| Upcall { id, path: path.into(), pid: 5, dst: FAR, dport: 443 };
    assert_eq!(d.upcall(&ev(1, ""), None).reply, Some(true));
    assert_eq!(d.upcall(&ev(2, "/bin/bad"), None).reply, Some(false));
    assert_eq!(d.upcall(&ev(3, "/bin/good"), None).reply, Some(true));
    let o = d.upcall(&ev(4, APP), None);
    assert_eq!((o.verdict, o.reply), (Verdict::Ask, None));
    let p = o.prompt.expect("a prompt");
    assert_eq!((p.command.as_str(), p.scope.as_str(), p.pid), ("someapp", "kernel", 5));
    assert!(d.upcall(&ev(5, APP), None).prompt.is_none());
    // The packet of the same connection asks the same question.
    assert!(d.judge(&flow(5000), &app(), None, 0).prompt.is_none());
    let s = d.answer(Answer::Block, &asked(Some("Example.com")), None);
    assert_eq!((s.resolve, s.allow), (vec![4, 5], false));
    assert_eq!(d.upcall(&ev(6, APP), None).reply, Some(false));
    let again = d.answer(Answer::Block, &asked(Some("example.com")), None);
    assert!(again.resolve.is_empty());
}

#[test]
fn events_are_dropped_with_the_hook() {
    let mut d = Daemon::new("default ask\n", "", Mode::Enforcement, 0);
    assert_eq!(d.upcall_switch(false), UpcallSwitch::Keep);
    assert_eq!(d.upcall_switch(true), UpcallSwitch::TurnOn);
    d.upcalls_on();
    assert_eq!(d.upcall_switch(true), UpcallSwitch::Keep);
    assert_eq!(d.upcall_switch(false), UpcallSwitch::TurnOff);
    d.upcall(&Upcall { id: 9, path: APP.into(), pid: 1, dst: FAR, dport: 443 }, None);
    d.upcalls_off();
    assert!(d.answer(Answer::AllowConn, &asked(None), None).resolve.is_empty());
    d.reload("mode visibility\n");
    assert_eq!(d.upcall_switch(true), UpcallSwitch::Keep, "observing never blocks");
}

#[test]
fn a_new_policy_forgets_what_the_old_one_settled() {
    let mut d = Daemon::new("default deny\n", "", Mode::Enforcement, 0);
    d.judge(&flow(5000), &app(), None, 0);
    assert_eq!(d.look(&syn(5000), false, 0), Step::Done(Fate::Reject));
    let r = d.reload("default allow\nmode visibility\nattribution kernel\n");
    assert!(r.attribution_changed);
    assert_eq!(r.mode_before, Mode::Enforcement);
    assert_eq!(d.mode, Mode::Visibility);
    assert_eq!(d.look(&syn(5000), false, 0), Step::Attribute(flow(5000)));
    assert!(!d.reload("attribution kernel\n").attribution_changed);
    assert_eq!(d.mode, Mode::Enforcement, "back to what it was started with");
}

#[test]
fn looks_at_the_file_once_a_second() {
    let mut d = Daemon::new("", "", Mode::Visibility, 0);
    assert!(!d.check_due(999_999_999));
    assert!(d.check_due(1_000_000_000));
    assert!(!d.check_due(1_999_999_999));
    assert!(!d.check_due(5), "a clock that went back is no reason");
    assert!(d.check_due(2_000_000_000));
}

#[test]
fn the_log_starts_over_now_and_then() {
    let mut d = Daemon::new("default allow\n", "", Mode::Visibility, 0);
    assert!(d.judge(&flow(1), &None, None, 0).log.is_some());
    d.tidy(119_999_999_999);
    assert!(d.judge(&flow(1), &None, None, 0).log.is_none());
    d.tidy(120_000_000_000);
    assert!(d.judge(&flow(1), &None, None, 0).log.is_some());
}

#[test]
fn contacts_are_noted_under_the_name() {
    let mut d = taught("default allow\n", Mode::Visibility);
    d.judge(&flow(1), &app(), None, 1234);
    d.judge(&Tuple { dst: ip(1, 1, 1, 1), ..flow(2) }, &app(), None, 1235);
    d.judge(&flow(3), &None, None, 1236);
    let text = d.seen.flush(0, 0).expect("something to write");
    let mut lines: Vec<&str> = text.lines().collect();
    lines.sort();
    assert_eq!(
        lines,
        vec!["1234\texample.com\t/usr/local/bin/someapp", "1235\t1.1.1.1\t/usr/local/bin/someapp"]
    );
}

#[test]
fn prompts_get_eight_words() {
    let p = Prompt {
        exe: Some(APP.into()),
        pid: 4242,
        command: "curl".into(),
        dst: FAR,
        dport: 443,
        host: Some("updates.example.com".into()),
        changed: true,
        scope: "local".into(),
    };
    assert_eq!(
        prompt_args(&p),
        vec![APP, "4242", "curl", "93.184.216.34", "443", "updates.example.com", "changed", "local"]
    );
    let q = Prompt {
        exe: None,
        pid: 0,
        command: "".into(),
        dst: FAR,
        dport: 53,
        host: None,
        changed: false,
        scope: "none".into(),
    };
    assert_eq!(
        prompt_args(&q),
        vec!["<unknown>", "0", "<unknown>", "93.184.216.34", "53", "-", "ok", "none"]
    );
}

#[test]
fn a_prompt_says_what_its_answer_is_about() {
    let mut d = taught("default ask\n", Mode::Enforcement);
    let p = d.judge(&flow(5000), &app(), None, 0).prompt.unwrap();
    let q = pending(p);
    assert_eq!((q.exe.as_deref(), q.host.as_deref()), (Some(APP), Some("example.com")));
    assert_eq!((q.dst, q.dport), (FAR, 443));
    d.answer(Answer::Timeout, &q, None);
    assert!(d.judge(&flow(5000), &app(), None, 0).prompt.is_some(), "the question was closed");
    let unnamed = Prompt {
        exe: None,
        pid: 0,
        command: "".into(),
        dst: FAR,
        dport: 53,
        host: Some("".into()),
        changed: false,
        scope: "none".into(),
    };
    assert_eq!(pending(unnamed).host, None);
}

#[test]
fn only_approvals_pin_a_binary() {
    assert!(pins_identity(Answer::AllowConn, Some(APP)));
    assert!(pins_identity(Answer::AllowApp, Some(APP)));
    assert!(!pins_identity(Answer::AllowApp, None));
    for ans in [Answer::Block, Answer::BlockApp, Answer::Timeout] {
        assert!(!pins_identity(ans, Some(APP)));
    }
}

#[test]
fn what_a_prompt_wrote_is_read_leniently() {
    assert_eq!(read_answer(Some(b"allow-conn\n")), Answer::AllowConn);
    assert_eq!(read_answer(Some(b"block-app")), Answer::BlockApp);
    assert_eq!(read_answer(Some(b"yes please")), Answer::Timeout);
    assert_eq!(read_answer(Some(&[0xff, 0xfe])), Answer::Timeout);
    assert_eq!(read_answer(Some(b"")), Answer::Timeout);
    assert_eq!(read_answer(None), Answer::Timeout);
}

#[test]
fn the_device_is_reopened_while_it_is_wanted() {
    let k = AttributionMode::Kernel;
    assert_eq!(backend_step(k, true, false), BackendStep::Keep);
    assert_eq!(backend_step(k, true, true), BackendStep::Close);
    assert_eq!(backend_step(k, false, false), BackendStep::Open);
    for (open, dead) in [(true, true), (true, false), (false, false)] {
        assert_eq!(backend_step(AttributionMode::Procstat, open, dead), BackendStep::Keep);
    }
}

#[test]
fn log_lines_name_the_tier() {
    let t = Tuple { proto: 17, src: ME, sport: 1, dst: IpAddr::parse("2606::1").unwrap(), dport: 53 };
    assert_eq!(
        log_line("Allow", &t, Some("dns.example"), &app()),
        "Allow  10.0.0.2:1 -> 2606::1 (dns.example) :53  someapp [77] /usr/local/bin/someapp (exact)"
    );
}

#[test]
fn verdicts_are_kept_up_to_a_bound() {
    let mut d = Daemon::new("default allow\n", "", Mode::Visibility, 0);
    // A smaller number of ports on two addresses stays well within the bound.
    for port in 0..200u16 {
        d.judge(&flow(port), &None, None, 0);
    }
    assert_eq!(d.decided.len(), 200);
    assert_eq!(d.look(&syn(7), false, 0), Step::Done(Fate::Forward));
}

#[test]
fn a_process_cannot_pass_by_another_name() {
    let mut d = Daemon::new("default deny\nallow-app /bin/good\n", "", Mode::Enforcement, 0);
    let named = |path: &str| {
        Some(Attribution {
            owner: Owner { pid: 1, command: "good".into(), path: path.into() },
            confidence: Confidence::Exact,
        })
    };
    assert_eq!(d.judge(&flow(1), &named("/bin/good"), None, 0).verdict, Verdict::Allow);
    assert_eq!(d.judge(&flow(2), &named("/tmp/good"), None, 0).verdict, Verdict::Deny);
}

#[test]
fn what_is_learned_pins_no_binary() {
    let mut d = taught("default ask\n", Mode::Visibility);
    assert!(d.judge(&flow(1), &app(), None, 0).learned.is_some());
    assert!(!d.needs_hash(Some(APP)));
}
