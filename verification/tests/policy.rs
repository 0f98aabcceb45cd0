use pfsnitch::addr::IpAddr;
use pfsnitch::policy::{Complaint, Policy};
use pfsnitch::rulefile::append_line;
use pfsnitch::words::{Answer, AttributionMode, Mode, Origin, Verdict, KINDS};

const APP: &str = "/usr/local/bin/someapp";
const OTHER: &str = "/usr/local/bin/otherapp";

fn load_from(body: &str) -> Policy {
    Policy::load(body)
}

fn ip(s: &str) -> IpAddr {
    IpAddr::parse(s).unwrap()
}

/// Append the line that a recorded answer gives, as the daemon does.
fn append(text: &mut String, line: Option<String>) {
    if let Some(l) = line {
        let tail = append_line(text, &l);
        text.push_str(&tail);
    }
}

#[test]
fn deny_dest_is_a_listed_kind() {
    assert!(KINDS.contains(&"deny-dest"));
}

#[test]
fn deny_dest_blocks_every_application() {
    let pol = load_from("default allow\ndeny-dest 203.0.113.9\n");
    let dst = ip("203.0.113.9");
    assert_eq!(pol.decide(Some(APP), dst, None, 443), Verdict::Deny);
    assert_eq!(pol.decide(Some(OTHER), dst, None, 443), Verdict::Deny);
    assert_eq!(pol.decide(None, dst, None, 443), Verdict::Deny);
    let elsewhere = ip("198.51.100.7");
    assert_eq!(pol.decide(Some(APP), elsewhere, None, 443), Verdict::Allow);
}

#[test]
fn deny_dest_outranks_a_per_app_allow() {
    let pol =
        load_from("default ask\nallow-app /usr/local/bin/someapp\ndeny-dest 203.0.113.9\n");
    let dst = ip("203.0.113.9");
    assert_eq!(pol.decide(Some(APP), dst, None, 443), Verdict::Deny);
}

#[test]
fn deny_dest_honours_its_port_scope() {
    let pol = load_from("default allow\ndeny-dest 203.0.113.9:443\n");
    let dst = ip("203.0.113.9");
    assert_eq!(pol.decide(Some(APP), dst, None, 443), Verdict::Deny);
    assert_eq!(
        pol.decide(Some(APP), dst, None, 80),
        Verdict::Allow,
        "a port-scoped deny must not close other ports"
    );
}

#[test]
fn blocking_an_unattributed_connection_actually_writes_a_rule() {
    let mut text = "default ask\n".to_string();
    let mut pol = load_from(&text);
    let dst = ip("203.0.113.9");
    append(&mut text, pol.record(Answer::Block, None, dst, None, 443, Origin::Approved));

    assert_eq!(pol.decide(None, dst, None, 443), Verdict::Deny);
    assert_eq!(
        pol.decide(Some(APP), dst, None, 443),
        Verdict::Deny,
        "a machine-wide block has to cover attributed traffic too"
    );
    assert!(text.contains("deny-dest 203.0.113.9:443"), "got: {text}");
}

#[test]
fn blocking_an_unattributed_connection_prefers_the_hostname() {
    let mut text = "default ask\n".to_string();
    let mut pol = load_from(&text);
    let dst = ip("203.0.113.9");
    append(
        &mut text,
        pol.record(Answer::Block, None, dst, Some("metrics.example.com"), 443, Origin::Approved),
    );

    assert!(text.contains("deny-host metrics.example.com:443"), "got: {text}");
    let moved = ip("198.51.100.7");
    assert_eq!(
        pol.decide(None, moved, Some("metrics.example.com"), 443),
        Verdict::Deny,
        "the block must follow the name to a new address"
    );
}

#[test]
fn an_app_wide_answer_without_a_binary_writes_nothing() {
    let mut text = "default ask\n".to_string();
    let mut pol = load_from(&text);
    let dst = ip("203.0.113.9");
    append(&mut text, pol.record(Answer::AllowApp, None, dst, None, 443, Origin::Approved));
    append(&mut text, pol.record(Answer::BlockApp, None, dst, None, 443, Origin::Approved));

    assert_eq!(text, "default ask\n");
    assert_eq!(pol.decide(None, dst, None, 443), Verdict::Ask);
}

#[test]
fn blocking_one_destination_leaves_the_app_otherwise_working() {
    let pol =
        load_from("default allow\ndeny-host-from metrics.example.com /usr/local/bin/someapp\n");
    let dst = ip("203.0.113.9");
    assert_eq!(
        pol.decide(Some(APP), dst, Some("metrics.example.com"), 443),
        Verdict::Deny,
        "the blocked endpoint must be denied to this app"
    );
    assert_eq!(
        pol.decide(Some(APP), dst, Some("api.example.com"), 443),
        Verdict::Allow,
        "the app must keep working everywhere else - the whole point"
    );
    assert_eq!(
        pol.decide(Some(OTHER), dst, Some("metrics.example.com"), 443),
        Verdict::Allow,
        "the block is scoped to one binary, not the host globally"
    );
}

#[test]
fn a_scoped_deny_outranks_a_broader_allow() {
    let pol = load_from(
        "default ask\nallow-host metrics.example.com\ndeny-host-from metrics.example.com /usr/local/bin/someapp\n",
    );
    let dst = ip("203.0.113.9");
    assert_eq!(
        pol.decide(Some(APP), dst, Some("metrics.example.com"), 443),
        Verdict::Deny,
        "specific beats general, or the block silently evaporates"
    );
    assert_eq!(pol.decide(Some(OTHER), dst, Some("metrics.example.com"), 443), Verdict::Allow);
}

#[test]
fn scoped_deny_also_outranks_allow_app_for_that_destination() {
    let pol = load_from(
        "default ask\nallow-app /usr/local/bin/someapp\ndeny-host-from metrics.example.com /usr/local/bin/someapp\n",
    );
    let dst = ip("203.0.113.9");
    assert_eq!(
        pol.decide(Some(APP), dst, Some("metrics.example.com"), 443),
        Verdict::Deny,
        "approving an app wholesale must not resurrect a destination you blocked"
    );
    assert_eq!(pol.decide(Some(APP), dst, Some("cdn.example.com"), 443), Verdict::Allow);
}

#[test]
fn scoped_deny_by_bare_address_when_no_hostname_was_seen() {
    let pol = load_from("default allow\ndeny-dest-from 203.0.113.9 /usr/local/bin/someapp\n");
    let blocked = ip("203.0.113.9");
    let other = ip("203.0.113.10");
    assert_eq!(pol.decide(Some(APP), blocked, None, 443), Verdict::Deny);
    assert_eq!(pol.decide(Some(APP), other, None, 443), Verdict::Allow);
    assert_eq!(pol.decide(Some(OTHER), blocked, None, 443), Verdict::Allow);
}

#[test]
fn wildcards_work_in_scoped_rules_too() {
    let pol = load_from(
        "default allow\ndeny-host-from *.telemetry.example.com /usr/local/bin/someapp\n",
    );
    let dst = ip("203.0.113.9");
    assert_eq!(pol.decide(Some(APP), dst, Some("eu.telemetry.example.com"), 443), Verdict::Deny);
    assert_eq!(pol.decide(Some(APP), dst, Some("telemetry.example.com"), 443), Verdict::Deny);
    assert_eq!(pol.decide(Some(APP), dst, Some("example.com"), 443), Verdict::Allow);
}

#[test]
fn an_executable_path_containing_spaces_still_parses() {
    let pol = load_from("default allow\ndeny-host-from metrics.example.com /opt/My App/bin/app\n");
    let dst = ip("203.0.113.9");
    assert_eq!(
        pol.decide(Some("/opt/My App/bin/app"), dst, Some("metrics.example.com"), 443),
        Verdict::Deny
    );
}

#[test]
fn a_port_scoped_rule_does_not_open_other_ports() {
    let pol = load_from("default ask\nallow-host-from example.com:443 /usr/local/bin/someapp\n");
    let dst = ip("203.0.113.9");
    assert_eq!(pol.decide(Some(APP), dst, Some("example.com"), 443), Verdict::Allow);
    assert_eq!(
        pol.decide(Some(APP), dst, Some("example.com"), 22),
        Verdict::Ask,
        "a different port on the same host is a different decision"
    );
    assert_eq!(pol.decide(Some(APP), dst, Some("example.com"), 80), Verdict::Ask);
}

#[test]
fn a_rule_without_a_port_still_means_any_port() {
    let pol = load_from("default ask\nallow-host-from example.com /usr/local/bin/someapp\n");
    let dst = ip("203.0.113.9");
    for p in [22u16, 80, 443, 8080] {
        assert_eq!(
            pol.decide(Some(APP), dst, Some("example.com"), p),
            Verdict::Allow,
            "bare host rule should still cover port {p}"
        );
    }
}

#[test]
fn a_port_scoped_deny_only_blocks_that_port() {
    let pol = load_from("default allow\ndeny-host-from example.com:443 /usr/local/bin/someapp\n");
    let dst = ip("203.0.113.9");
    assert_eq!(pol.decide(Some(APP), dst, Some("example.com"), 443), Verdict::Deny);
    assert_eq!(pol.decide(Some(APP), dst, Some("example.com"), 80), Verdict::Allow);
}

#[test]
fn ipv6_literal_with_a_port_is_parsed_and_matched() {
    let pol = load_from(
        "default ask\nallow-dest-from [2606:4700:4700::1111]:853 /usr/local/bin/someapp\n",
    );
    let v6 = ip("2606:4700:4700::1111");
    assert_eq!(pol.decide(Some(APP), v6, None, 853), Verdict::Allow);
    assert_eq!(pol.decide(Some(APP), v6, None, 443), Verdict::Ask);
}

#[test]
fn approving_a_host_for_one_app_does_not_open_it_for_others() {
    let pol = load_from("default ask\nallow-host-from api.example.com /usr/local/bin/someapp\n");
    let dst = ip("203.0.113.9");
    assert_eq!(pol.decide(Some(APP), dst, Some("api.example.com"), 443), Verdict::Allow);
    assert_eq!(
        pol.decide(Some(OTHER), dst, Some("api.example.com"), 443),
        Verdict::Ask,
        "a different binary must still be asked about the same host"
    );
}

#[test]
fn a_scoped_deny_still_beats_a_scoped_allow_for_another_app() {
    let pol = load_from(
        "default ask\nallow-host-from api.example.com /usr/local/bin/someapp\ndeny-host-from api.example.com /usr/local/bin/otherapp\n",
    );
    let dst = ip("203.0.113.9");
    assert_eq!(pol.decide(Some(APP), dst, Some("api.example.com"), 443), Verdict::Allow);
    assert_eq!(pol.decide(Some(OTHER), dst, Some("api.example.com"), 443), Verdict::Deny);
}

#[test]
fn a_scoped_deny_beats_a_scoped_allow_for_the_same_app() {
    let pol = load_from(
        "default ask\nallow-host-from api.example.com /usr/local/bin/someapp\ndeny-host-from api.example.com /usr/local/bin/someapp\n",
    );
    let dst = ip("203.0.113.9");
    assert_eq!(
        pol.decide(Some(APP), dst, Some("api.example.com"), 443),
        Verdict::Deny,
        "deny must win when both are present, never allow"
    );
}

#[test]
fn a_global_allow_host_still_covers_every_binary() {
    let pol = load_from("default ask\nallow-host dns.example.com\n");
    let dst = ip("203.0.113.9");
    assert_eq!(pol.decide(Some(APP), dst, Some("dns.example.com"), 443), Verdict::Allow);
    assert_eq!(pol.decide(Some(OTHER), dst, Some("dns.example.com"), 443), Verdict::Allow);
    assert_eq!(pol.decide(None, dst, Some("dns.example.com"), 443), Verdict::Allow);
}

#[test]
fn a_scoped_allow_cannot_match_an_unattributed_connection() {
    let pol = load_from("default ask\nallow-host-from api.example.com /usr/local/bin/someapp\n");
    let dst = ip("203.0.113.9");
    assert_eq!(
        pol.decide(None, dst, Some("api.example.com"), 443),
        Verdict::Ask,
        "fail closed: an unidentified process gets no benefit from another app rule"
    );
}

#[test]
fn an_absent_file_asks_about_everything() {
    let pol = load_from("");
    assert_eq!(pol.decide(Some(APP), ip("1.1.1.1"), None, 53), Verdict::Ask);
    assert_eq!(pol.summary(), "default=Ask allow-app=0 deny-app=0 allow-host=0 allow-dest=0");
    assert_eq!(pol.mode(Mode::Enforcement), Mode::Enforcement);
    assert_eq!(pol.attribution(), AttributionMode::Procstat);
}

#[test]
fn every_directive_is_taken_into_account() {
    let pol = load_from(
        "default deny # nothing by default\n\n# a comment\nallow-app /bin/a\nallow-app /bin/a\ndeny-app /bin/b\nallow-host A.example\nallow-dest 1.1.1.1\nallow-dest 2606:0:0::1\nprompt /bin/ask me\nmode ENFORCE\nattribution Kernel\napp-id ABCDEF /bin/a\n",
    );
    assert_eq!(pol.summary(), "default=Deny allow-app=1 deny-app=1 allow-host=1 allow-dest=2");
    assert_eq!(pol.decide(Some("/bin/a"), ip("9.9.9.9"), None, 1), Verdict::Allow);
    assert_eq!(pol.decide(Some("/bin/b"), ip("1.1.1.1"), None, 1), Verdict::Deny);
    assert_eq!(pol.decide(None, ip("2606::1"), None, 1), Verdict::Allow);
    assert_eq!(pol.decide(None, ip("9.9.9.9"), Some("a.EXAMPLE"), 1), Verdict::Allow);
    assert_eq!(pol.prompt_bin(None, "/x"), "/bin/ask me");
    assert_eq!(pol.prompt_bin(Some("/env"), "/x"), "/env");
    assert_eq!(pol.prompt_bin(Some(""), "/x"), "/bin/ask me");
    assert_eq!(pol.mode(Mode::Visibility), Mode::Enforcement);
    assert_eq!(pol.attribution(), AttributionMode::Kernel);
    assert_eq!(pol.expected_id("/bin/a"), Some("abcdef"));
    assert_eq!(pol.expected_id("/bin/b"), None);
    assert_eq!(load_from("").prompt_bin(None, "/x"), "/x");
}

#[test]
fn later_settings_win() {
    let pol = load_from("default allow\ndefault deny\nmode visibility\nmode enforcement\n");
    assert_eq!(pol.decide(None, ip("9.9.9.9"), None, 1), Verdict::Deny);
    assert_eq!(pol.mode(Mode::Visibility), Mode::Enforcement);
}

#[test]
fn unclear_lines_are_complained_about_and_skipped() {
    let text = "default maybe\nallow-dest nowhere\nallow-host-from example.com\nmode x\nattribution y\nfrobnicate z\nallow-dest-from nope:1 /bin/a\napp-id abc\n";
    let got = Policy::complaints(text);
    let numbers: Vec<usize> = got.iter().map(|c| c.0).collect();
    assert_eq!(numbers, vec![1, 2, 3, 4, 5, 6, 7, 8]);
    assert!(matches!(&got[0].1, Complaint::BadDefault(v) if v == "maybe"));
    assert!(matches!(&got[1].1, Complaint::BadAddress(v) if v == "nowhere"));
    assert!(matches!(&got[2].1, Complaint::Incomplete(k) if k == "allow-host-from"));
    assert!(matches!(&got[3].1, Complaint::BadMode(v) if v == "x"));
    assert!(matches!(&got[4].1, Complaint::BadAttribution(v) if v == "y"));
    assert!(matches!(&got[5].1, Complaint::Unknown(k) if k == "frobnicate"));
    assert!(matches!(&got[6].1, Complaint::BadAddress(v) if v == "nope:1"));
    assert!(matches!(&got[7].1, Complaint::Incomplete(k) if k == "app-id"));
    assert_eq!(load_from(text).summary(), load_from("").summary());
    assert!(Policy::complaints("default ask\n# fine\n").is_empty());
}

#[test]
fn a_line_that_is_complained_about_can_be_taken_out() {
    let with = "default deny\nallow-dest nowhere\r\nallow-dest 9.9.9.9:443\nfrobnicate";
    let numbers: Vec<usize> = Policy::complaints(with).iter().map(|c| c.0).collect();
    assert_eq!(numbers, vec![2, 4]);
    let a = load_from(with);
    let b = load_from("default deny\nallow-dest 9.9.9.9:443\n");
    assert_eq!(a.summary(), b.summary());
    for (dst, port) in [("9.9.9.9", 443), ("9.9.9.9", 80), ("1.1.1.1", 443)] {
        let d = ip(dst);
        assert_eq!(a.decide(Some(APP), d, None, port), b.decide(Some(APP), d, None, port));
    }
    assert_eq!(b.decide(Some(APP), ip("9.9.9.9"), None, 443), Verdict::Allow);
    assert_eq!(b.decide(Some(APP), ip("1.1.1.1"), None, 443), Verdict::Deny);
}

#[test]
fn order_repetition_and_comments_of_rules_do_not_matter() {
    let a = load_from("default ask\nallow-app /usr/local/bin/someapp\ndeny-host ads.example\n");
    let b = load_from(
        "deny-host ADS.example\t# noisy\nallow-app /usr/local/bin/someapp#mine\ndefault ask\ndeny-host ads.example\n# done\n",
    );
    assert_eq!(a.summary(), b.summary());
    let d = ip("9.9.9.9");
    for exe in [Some(APP), Some(OTHER), None] {
        for host in [Some("ads.example"), Some("other.example"), None] {
            assert_eq!(a.decide(exe, d, host, 443), b.decide(exe, d, host, 443));
        }
    }
    assert_eq!(b.decide(Some(APP), d, Some("ads.example"), 443), Verdict::Deny);
    assert_eq!(b.decide(Some(APP), d, None, 443), Verdict::Allow);
    assert_eq!(b.decide(Some(OTHER), d, None, 443), Verdict::Ask);
}

#[test]
fn wildcards_cover_the_domain_and_what_is_below_it() {
    let pol = load_from("default deny\nallow-host *.googleapis.com\n");
    let dst = ip("9.9.9.9");
    assert_eq!(pol.decide(None, dst, Some("googleapis.com"), 443), Verdict::Allow);
    assert_eq!(pol.decide(None, dst, Some("a.b.GoogleAPIs.com"), 443), Verdict::Allow);
    assert_eq!(pol.decide(None, dst, Some("notgoogleapis.com"), 443), Verdict::Deny);
}

#[test]
fn hosts_are_matched_in_any_case_outside_ascii_too() {
    let pol = load_from("default ask\nallow-host B\u{dc}CHER.example\n");
    assert_eq!(pol.decide(None, ip("9.9.9.9"), Some("b\u{fc}cher.EXAMPLE"), 443), Verdict::Allow);
}

#[test]
fn recorded_lines_say_where_they_came_from() {
    let dst = ip("93.184.216.34");
    let v6 = ip("2606:4700::1111");
    let mut pol = load_from("");
    let mut rec = |ans: Answer, exe: Option<&str>, d: IpAddr, host: Option<&str>, o: Origin| {
        pol.record(ans, exe, d, host, 443, o)
    };
    assert_eq!(
        rec(Answer::AllowConn, Some(APP), dst, Some("Example.com"), Origin::Approved).as_deref(),
        Some("allow-host-from Example.com:443\t/usr/local/bin/someapp\t# approved for /usr/local/bin/someapp")
    );
    assert_eq!(
        rec(Answer::AllowConn, Some(APP), v6, None, Origin::Learned).as_deref(),
        Some("allow-dest-from [2606:4700::1111]:443\t/usr/local/bin/someapp\t# no hostname seen; learned from /usr/local/bin/someapp")
    );
    assert_eq!(
        rec(Answer::AllowConn, None, dst, Some("example.com"), Origin::Approved).as_deref(),
        Some("allow-host example.com:443\t# approved; unattributed connection")
    );
    assert_eq!(
        rec(Answer::AllowConn, None, dst, Some("-"), Origin::Learned).as_deref(),
        Some("allow-dest 93.184.216.34:443\t# learned; unattributed, no hostname seen")
    );
    assert_eq!(
        rec(Answer::AllowApp, Some(APP), dst, None, Origin::Approved).as_deref(),
        Some("allow-app /usr/local/bin/someapp")
    );
    assert_eq!(
        rec(Answer::BlockApp, Some(APP), dst, None, Origin::Approved).as_deref(),
        Some("deny-app /usr/local/bin/someapp\t# every destination")
    );
    assert_eq!(
        rec(Answer::Block, Some(APP), dst, Some("m.example"), Origin::Approved).as_deref(),
        Some("deny-host-from m.example:443\t/usr/local/bin/someapp\t# blocked for this app only")
    );
    assert_eq!(
        rec(Answer::Block, Some(APP), dst, Some(""), Origin::Approved).as_deref(),
        Some("deny-dest-from 93.184.216.34:443\t/usr/local/bin/someapp\t# no hostname seen; blocked for this app only")
    );
    assert_eq!(
        rec(Answer::Block, None, dst, Some("m.example"), Origin::Approved).as_deref(),
        Some("deny-host m.example:443\t# unattributed connection; blocked for every application")
    );
    assert_eq!(
        rec(Answer::Block, None, dst, None, Origin::Approved).as_deref(),
        Some("deny-dest 93.184.216.34:443\t# unattributed, no hostname seen; blocked for every application")
    );
    assert_eq!(rec(Answer::Timeout, Some(APP), dst, None, Origin::Approved), None);
}

#[test]
fn what_is_recorded_is_what_is_loaded() {
    let dst = ip("2606:4700::1111");
    for (exe, host) in
        [(Some(APP), Some("Api.example.com")), (Some(APP), None), (None, Some("x.example")), (None, None)]
    {
        for ans in [Answer::AllowConn, Answer::Block] {
            let mut text = "default ask\n".to_string();
            let mut pol = load_from(&text);
            append(&mut text, pol.record(ans, exe, dst, host, 443, Origin::Approved));
            let again = load_from(&text);
            for port in [443u16, 80] {
                for e in [None, Some(APP), Some(OTHER)] {
                    assert_eq!(
                        pol.decide(e, dst, host, port),
                        again.decide(e, dst, host, port),
                        "{text}"
                    );
                }
            }
            let want = if matches!(ans, Answer::Block) { Verdict::Deny } else { Verdict::Allow };
            assert_eq!(again.decide(exe, dst, host, 443), want);
            assert_eq!(again.decide(exe, dst, host, 80), Verdict::Ask);
        }
    }
}

#[test]
fn identities_are_pinned_once_and_forgotten_on_request() {
    let mut pol = load_from("");
    assert_eq!(
        pol.record_id("/bin/a", "ABC").as_deref(),
        Some("app-id ABC\t/bin/a\t# identity when approved")
    );
    assert_eq!(pol.expected_id("/bin/a"), Some("abc"));
    assert_eq!(pol.record_id("/bin/a", "def"), None);
    assert_eq!(pol.expected_id("/bin/a"), Some("abc"));
    pol.forget_id("/bin/a");
    assert_eq!(pol.expected_id("/bin/a"), None);
    assert!(pol.record_id("/bin/a", "def").is_some());
    let again = load_from("app-id ABC\t/bin/a\t# identity when approved\n");
    assert_eq!(again.expected_id("/bin/a"), Some("abc"));
}

#[test]
fn carriage_returns_belong_to_the_line_ending() {
    let pol = load_from("default allow\r\ndeny-app /bin/b\r\n");
    assert_eq!(pol.decide(Some("/bin/b"), ip("1.1.1.1"), None, 1), Verdict::Deny);
    assert_eq!(pol.decide(None, ip("1.1.1.1"), None, 1), Verdict::Allow);
}

#[test]
fn a_block_is_not_lost_on_an_unended_file() {
    let mut text = "default allow".to_string();
    let mut pol = load_from(&text);
    let dst = ip("203.0.113.9");
    append(&mut text, pol.record(Answer::Block, None, dst, None, 443, Origin::Approved));
    append(&mut text, pol.record_id("/bin/a", "abc"));
    let again = load_from(&text);
    assert_eq!(again.decide(None, dst, None, 443), Verdict::Deny);
    assert_eq!(again.decide(None, dst, None, 80), Verdict::Allow);
    assert_eq!(again.expected_id("/bin/a"), Some("abc"));
}

#[test]
fn an_approval_by_name_opens_that_name_alone() {
    let mut pol = load_from("default deny\ndeny-host bad.example\n");
    let dst = ip("203.0.113.9");
    pol.record(Answer::AllowConn, Some(APP), dst, Some("Good.example"), 443, Origin::Approved);
    assert_eq!(pol.decide(Some(APP), ip("9.9.9.9"), Some("good.EXAMPLE"), 443), Verdict::Allow);
    assert_eq!(pol.decide(Some(APP), dst, Some("x.good.example"), 443), Verdict::Deny);
    assert_eq!(pol.decide(Some(APP), dst, Some("bad.example"), 443), Verdict::Deny);
    assert_eq!(pol.decide(Some(APP), dst, None, 443), Verdict::Deny);
    assert_eq!(pol.decide(Some(OTHER), dst, Some("good.example"), 443), Verdict::Deny);
    assert_eq!(pol.decide(Some(APP), dst, Some("good.example"), 80), Verdict::Deny);
}
