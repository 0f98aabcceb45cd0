use pfsnitch::addr::IpAddr;
use pfsnitch::apps::{apps, rule_seen, split_rule};
use pfsnitch::json::json_escape;
use pfsnitch::policy::Policy;
use pfsnitch::procinfo::{Confidence, Owner, ProbeEntry};
use pfsnitch::report::{
    apps_json, apps_table, probe_report, rules_json, rules_table, short_dir, status_json, status_table,
};
use pfsnitch::rulefile::rules;
use pfsnitch::seen::load;
use pfsnitch::words::Mode;

const PATH: &str = "/etc/policy.conf";
const TEXT: &str = "default ask\nallow-host-from github.com:443 /usr/local/bin/git\nallow-dest 1.1.1.1:53 # resolver\ndeny-app /opt/Zed/zed\nallow-app /usr/local/bin/git\nallow-host-from x.example /bin/Apple\n";
const SEEN: &str = "900\tgithub.com\t/usr/local/bin/git\n940\tother.example\t/usr/local/bin/git\n100\t1.1.1.1\t/bin/q\n200\t1.1.1.1\t/bin/r\n";

#[test]
fn json_strings_are_escaped() {
    assert_eq!(json_escape("a\"b\\c\n\r\t\u{1}\u{1f}\u{fc}"), "a\\\"b\\\\c\\n\\r\\t\\u0001\\u001f\u{fc}");
    assert_eq!(json_escape(""), "");
}

#[test]
fn rules_are_one_object_per_line() {
    assert_eq!(rules_json(&[]), "[\n]\n");
    let rs = rules("allow-app /bin/\"a\" # it's\ndeny-host b\n");
    assert_eq!(
        rules_json(&rs),
        "[\n  {\"kind\":\"allow-app\",\"value\":\"/bin/\\\"a\\\"\",\"comment\":\"it's\"},\n  {\"kind\":\"deny-host\",\"value\":\"b\",\"comment\":null}\n]\n"
    );
}

#[test]
fn rules_line_up_in_columns() {
    assert_eq!(rules_table(&[], PATH), "no rules in /etc/policy.conf\n");
    let rs = rules("allow-app /bin/a # why\ndeny-host-from b /bin/c\n");
    assert_eq!(
        rules_table(&rs, PATH),
        format!("allow-app   {:<44} # why\ndeny-host-from b /bin/c\n", "/bin/a")
    );
}

#[test]
fn the_status_counts_every_type() {
    let rs = rules(TEXT);
    assert_eq!(
        status_json(true, Mode::Visibility, PATH, "/bin/ask", &rs),
        "{\"daemon\":\"running\",\"mode\":\"visibility\",\"policy\":\"/etc/policy.conf\",\"prompt\":\"/bin/ask\",\"rules\":{\"allow-app\":1,\"deny-app\":1,\"allow-host\":0,\"deny-host\":0,\"allow-dest\":1,\"deny-dest\":0,\"allow-host-from\":2,\"allow-dest-from\":0,\"deny-host-from\":0,\"deny-dest-from\":0},\"total\":5}\n"
    );
    let shown = status_table(false, &Policy::load(TEXT), PATH, "/bin/ask", &rs);
    assert!(shown.starts_with("daemon:  stopped\nmode:    visibility\npolicy:  /etc/policy.conf\nprompt:  /bin/ask\ndefault: default=Ask allow-app=1 deny-app=1 allow-host=0 allow-dest=1\n  allow-app   1\n"), "{shown}");
    assert!(shown.ends_with("  deny-dest-from 0\n  total       5\n"), "{shown}");
}

#[test]
fn rules_are_split_by_application() {
    let s = split_rule("allow-app", "/bin/a");
    assert_eq!((s.app.as_str(), s.dest.as_str(), s.deny), ("/bin/a", "all destinations", false));
    let s = split_rule("deny-host-from", "x.example:1  /opt/My App/a ");
    assert_eq!((s.app.as_str(), s.dest.as_str(), s.deny), ("/opt/My App/a", "x.example:1", true));
    let s = split_rule("deny-dest", "1.1.1.1");
    assert_eq!((s.app.as_str(), s.dest.as_str(), s.deny), ("", "1.1.1.1", true));
    let s = split_rule("allow-dest-from", "lonely");
    assert_eq!((s.app.as_str(), s.dest.as_str()), ("", "lonely"));
}

#[test]
fn the_latest_use_of_a_rule_is_found() {
    let t = load(SEEN);
    assert_eq!(rule_seen(&t, &split_rule("allow-app", "/usr/local/bin/git")), Some(940));
    assert_eq!(rule_seen(&t, &split_rule("allow-host-from", "GitHub.com:443 /usr/local/bin/git")), Some(900));
    assert_eq!(rule_seen(&t, &split_rule("allow-host-from", "github.com /bin/other")), None);
    assert_eq!(rule_seen(&t, &split_rule("allow-dest", "1.1.1.1:53")), Some(200), "any binary counts");
    assert_eq!(rule_seen(&t, &split_rule("allow-host", "nowhere")), None);
}

#[test]
fn applications_come_by_name_with_the_rest_last() {
    let gs = apps(&rules(TEXT), &load(SEEN));
    let names: Vec<&str> = gs.iter().map(|g| g.app.as_str()).collect();
    assert_eq!(names, vec!["/bin/Apple", "/usr/local/bin/git", "/opt/Zed/zed", ""]);
    let git = &gs[1];
    assert_eq!((git.allow, git.deny, git.last_seen), (2, 0, Some(940)));
    assert_eq!(git.rules[0].last_seen, Some(900));
    assert_eq!(gs[3].last_seen, Some(200));
    assert_eq!(gs[2].deny, 1);
    let total: usize = gs.iter().map(|g| g.rules.len()).sum();
    assert_eq!(total, 5);
    assert!(apps(&[], &load(SEEN)).is_empty());
}

#[test]
fn applications_as_a_table() {
    let gs = apps(&rules("allow-dest 1.1.1.1:53\ndeny-app /bin/z\n"), &load(SEEN));
    assert_eq!(
        apps_table(&gs, PATH, 260),
        format!(
            "/bin/z  [0 allow, 1 deny]  last: never\n    deny  {:<40} {:<10} deny-app\n(any application)  [1 allow, 0 deny]  last: 1m ago\n    allow {:<40} {:<10} allow-dest\n",
            "all destinations", "never", "1.1.1.1:53", "1m ago"
        )
    );
    assert_eq!(apps_table(&[], PATH, 0), "no rules in /etc/policy.conf\n");
}

#[test]
fn applications_as_json() {
    assert_eq!(apps_json(&[], 0), "{\"apps\":[\n]}\n");
    let gs = apps(&rules("allow-host-from github.com:443 /usr/local/bin/git # c\nallow-dest 9.9.9.9\n"), &load(SEEN));
    assert_eq!(
        apps_json(&gs, 940),
        concat_lines(&[
            "{\"apps\":[",
            "  {",
            "    \"app\":\"/usr/local/bin/git\",",
            "    \"dir\":\"/usr/local/bin/\",",
            "    \"dir_short\":\"/usr/local/bin/\",",
            "    \"name\":\"git\",",
            "    \"allow\":1,\"deny\":0,\"total\":1,",
            "    \"last_seen\":940,\"last_seen_ago\":\"0s ago\",",
            "    \"rules\":[",
            "      {\"kind\":\"allow-host-from\",\"value\":\"github.com:443 /usr/local/bin/git\",\"dest\":\"github.com:443\",\"effect\":\"allow\",\"last_seen\":900,\"last_seen_ago\":\"40s ago\",\"comment\":\"c\"}",
            "    ]",
            "  },",
            "  {",
            "    \"app\":\"\",",
            "    \"dir\":\"\",",
            "    \"dir_short\":\"\",",
            "    \"name\":\"any application\",",
            "    \"allow\":1,\"deny\":0,\"total\":1,",
            "    \"last_seen\":null,\"last_seen_ago\":\"never\",",
            "    \"rules\":[",
            "      {\"kind\":\"allow-dest\",\"value\":\"9.9.9.9\",\"dest\":\"9.9.9.9\",\"effect\":\"allow\",\"last_seen\":null,\"last_seen_ago\":\"never\",\"comment\":null}",
            "    ]",
            "  }",
            "]}",
        ])
    );
}

fn concat_lines(lines: &[&str]) -> String {
    let mut out = lines.join("\n");
    out.push('\n');
    out
}

#[test]
fn directories_are_shortened_from_the_left() {
    assert_eq!(short_dir("/usr/local/bin/", 15), "/usr/local/bin/");
    assert_eq!(short_dir("/usr/local/share/chromium/lib/", 14), "\u{2026}/lib/");
    assert_eq!(short_dir("/usr/local/share/chromium/lib/", 15), "\u{2026}/chromium/lib/");
    assert_eq!(short_dir("averylongdirectory", 5), "\u{2026}tory");
    assert_eq!(short_dir("abc", 0), "\u{2026}");
    assert_eq!(short_dir("", 0), "");
}

#[test]
fn sockets_are_reported_by_command_and_port() {
    let row = |cmd: &str, pid: i32, lport: u16, peer: Option<(IpAddr, u16)>| ProbeEntry {
        proto: 17,
        local: IpAddr::V4(10, 0, 0, 2),
        lport,
        peer,
        owner: Owner { pid, command: cmd.into(), path: format!("/sbin/{cmd}") },
        confidence: Confidence::Local,
    };
    let rows = vec![
        row("ntpd", 7, 123, None),
        row("curl", 12, 5000, Some((IpAddr::V4(1, 1, 1, 1), 443))),
        row("curl", 12, 4000, Some((IpAddr::V4(1, 1, 1, 1), 80))),
    ];
    let line = |a: &str, b: &str, c: &str, d: &str, e: &str| {
        format!("{a:<16} {b:>7}  {c:<40} {d:<26} {e}\n")
    };
    let want = line("COMMAND", "PID", "PATH", "REMOTE", "HOW")
        + &line("curl", "12", "/sbin/curl", "1.1.1.1:80", "local")
        + &line("curl", "12", "/sbin/curl", "1.1.1.1:443", "local")
        + &line("ntpd", "7", "/sbin/ntpd", "(unconnected) 10.0.0.2:123", "local");
    assert_eq!(probe_report(&rows), want);
}
