use pfsnitch::addr::IpAddr;
use pfsnitch::policy::Policy;
use pfsnitch::rulefile::{
    add_rule, append_line, clear_rules, normalise, remove_app, remove_rule, rules, set_attribution,
    set_mode, RuleError,
};
use pfsnitch::words::{AttributionMode, Mode, Verdict};

fn add(text: &str, kind: &str, value: &str) -> Option<String> {
    add_rule(text, kind, value, None).unwrap()
}

#[test]
fn rules_are_listed_in_file_order_with_their_comments() {
    let text = "# heading\ndefault ask\nallow-app /bin/a # why\n\nallow-host b.example:443\nmode visibility\nallow-app\ndeny-dest-from 1.1.1.1 /opt/My App/x #\n";
    let rs = rules(text);
    let got: Vec<(&str, &str, Option<&str>)> = rs
        .iter()
        .map(|r| (r.kind.as_str(), r.value.as_str(), r.comment.as_deref()))
        .collect();
    assert_eq!(
        got,
        vec![
            ("allow-app", "/bin/a", Some("why")),
            ("allow-host", "b.example:443", None),
            ("deny-dest-from", "1.1.1.1 /opt/My App/x", Some("")),
        ]
    );
    assert!(rules("").is_empty());
}

#[test]
fn values_are_compared_in_canonical_form() {
    assert_eq!(normalise("allow-host", "Example.COM:443"), "example.com:443");
    assert_eq!(normalise("deny-host", "Example.COM"), "example.com");
    assert_eq!(normalise("allow-dest", "2606:0:0::1"), "2606::1");
    assert_eq!(normalise("deny-dest", "[2606:0:0::1]:53"), "[2606::1]:53");
    assert_eq!(normalise("allow-dest", "nowhere"), "nowhere");
    assert_eq!(normalise("allow-host-from", "A.example  /bin/A b"), "a.example /bin/A b");
    assert_eq!(normalise("deny-dest-from", "[::1]:1 /bin/a"), "[::1]:1 /bin/a");
    assert_eq!(normalise("allow-dest-from", "x /bin/a"), "x /bin/a");
    assert_eq!(normalise("allow-host-from", "lonely"), "lonely");
    assert_eq!(normalise("allow-app", "/Bin/A"), "/Bin/A");
    assert_eq!(normalise("allow-host", "B\u{dc}CHER.example"), "b\u{fc}cher.example");
}

#[test]
fn adding_a_rule_gives_what_to_append() {
    assert_eq!(add("", "allow-host", "Example.com").as_deref(), Some("allow-host example.com\n"));
    assert_eq!(
        add_rule("", "deny-app", "/bin/a", Some("noisy")).unwrap().as_deref(),
        Some("deny-app /bin/a\t# noisy\n")
    );
    assert_eq!(
        add("", "allow-dest-from", "2606:0::1 /bin/a").as_deref(),
        Some("allow-dest-from 2606::1 /bin/a\n")
    );
}

#[test]
fn adding_twice_is_a_no_op() {
    let mut text = String::from("default ask\n");
    for value in ["Example.com:443", "EXAMPLE.com:443"] {
        if let Some(line) = add(&text, "allow-host", value) {
            text.push_str(&line);
        }
    }
    assert_eq!(text, "default ask\nallow-host example.com:443\n");
    assert!(add(&text, "deny-host", "example.com:443").is_some(), "another type is another rule");
    assert!(add("allow-dest 2606:0:0::1\n", "allow-dest", "2606::1").is_none());
}

#[test]
fn what_is_added_is_loaded() {
    let mut text = String::from("default ask\n");
    text.push_str(&add("default ask\n", "deny-host-from", "M.example:443 /bin/a").unwrap());
    let pol = Policy::load(&text);
    let dst = IpAddr::V4(1, 2, 3, 4);
    assert_eq!(pol.decide(Some("/bin/a"), dst, Some("m.example"), 443), Verdict::Deny);
    assert_eq!(pol.decide(Some("/bin/b"), dst, Some("m.example"), 443), Verdict::Ask);
}

#[test]
fn unfit_rules_are_refused() {
    assert!(matches!(add_rule("", "allow", "x", None), Err(RuleError::UnknownKind)));
    assert!(matches!(add_rule("", "allow-host-from", "lonely", None), Err(RuleError::Incomplete)));
    assert!(matches!(add_rule("", "deny-dest-from", "1.1.1.1", None), Err(RuleError::Incomplete)));
    match add_rule("", "allow-dest-from", "name.example:1 /bin/a", None) {
        Err(RuleError::NotAnAddress { given, instead }) => {
            assert_eq!((given.as_str(), instead.as_str()), ("name.example:1", "the -host-from form"));
        }
        other => panic!("{other:?}"),
    }
    for (kind, want) in [("allow-dest", "allow-host"), ("deny-dest", "deny-host")] {
        match add_rule("", kind, "name.example", None) {
            Err(RuleError::NotAnAddress { given, instead }) => {
                assert_eq!((given.as_str(), instead.as_str()), ("name.example", want));
            }
            other => panic!("{other:?}"),
        }
    }
}

#[test]
fn removing_keeps_everything_else_as_it_was() {
    let text = "# mine\n\nallow-host Example.com # a\n  allow-host   example.COM\nallow-host example.com:443\ndeny-host example.com\n";
    let (n, kept) = remove_rule(text, "allow-host", "EXAMPLE.com");
    assert_eq!(n, 2);
    assert_eq!(kept, "# mine\n\nallow-host example.com:443\ndeny-host example.com\n");
    assert_eq!(remove_rule(&kept, "allow-host", "example.com"), (0, kept.clone()));
}

#[test]
fn adding_and_removing_cancel_out() {
    let before = "default ask\nallow-app /bin/a # why\n";
    let mut text = before.to_string();
    text.push_str(&add(before, "allow-dest", "[2606:0::1]:53").unwrap());
    assert_eq!(remove_rule(&text, "allow-dest", "[2606::1]:53"), (1, before.to_string()));
}

#[test]
fn forgetting_a_binary_is_exact() {
    let text = "allow-app /bin/a\nallow-app /bin/ab\nallow-host-from x.example /bin/a # c\ndeny-dest-from 1.1.1.1 /bin/ab\napp-id abc /bin/a\nallow-host x.example\n# /bin/a\n";
    let (n, kept) = remove_app(text, "/bin/a");
    assert_eq!(
        kept,
        "allow-app /bin/ab\ndeny-dest-from 1.1.1.1 /bin/ab\nallow-host x.example\n# /bin/a\n"
    );
    assert_eq!(n, 3);
    assert_eq!(remove_app(&kept, "/bin/a").0, 0);
}

#[test]
fn clearing_keeps_the_settings() {
    let text = "# heading\ndefault deny\nmode enforcement\nprompt /bin/ask\nattribution kernel\nallow-app /bin/a\napp-id abc /bin/a\ndeny-host x\n";
    let (n, kept) = clear_rules(text);
    let pol = Policy::load(&kept);
    assert_eq!(pol.mode(Mode::Visibility), Mode::Enforcement);
    assert_eq!(pol.attribution(), AttributionMode::Kernel);
    assert_eq!(pol.prompt_bin(None, "x"), "/bin/ask");
    assert_eq!(pol.summary(), "default=Deny allow-app=0 deny-app=0 allow-host=0 allow-dest=0");
    assert!(rules(&kept).is_empty());
    assert!(kept.starts_with("# heading\n"));
    assert!(n >= 2);
}

#[test]
fn a_setting_is_written_in_one_place() {
    let text = "mode visibility # old\ndefault ask\nmode listen\n";
    let once = set_mode(text, Mode::Enforcement);
    assert_eq!(once, "mode enforcement\ndefault ask\n");
    assert_eq!(set_mode(&once, Mode::Enforcement), once);
    assert_eq!(set_mode("", Mode::Visibility), "mode visibility\n");
    assert_eq!(set_mode("default ask", Mode::Visibility), "default ask\nmode visibility\n");
    assert_eq!(
        set_attribution("default ask\nattribution kernel\n", AttributionMode::Procstat),
        "default ask\nattribution procstat\n"
    );
    let pol = Policy::load(&set_attribution("", AttributionMode::Kernel));
    assert_eq!(pol.attribution(), AttributionMode::Kernel);
    assert_eq!(Policy::load(&once).mode(Mode::Visibility), Mode::Enforcement);
}

#[test]
fn rules_can_be_removed_as_they_are_listed() {
    let text = "allow-host  Example.COM:443 # a\ndeny-dest [2606:0::1]\nallow-host-from x.example\t/opt/My App/a\nallow-app /bin/a\ndeny-dest-from 1.1.1.1:53   /bin/a\n";
    let rs = rules(text);
    assert_eq!(rs.len(), 5);
    for r in &rs {
        assert_eq!(remove_rule(text, &r.kind, &r.value).0, 1, "{} {}", r.kind, r.value);
    }
}

#[test]
fn removing_keeps_line_endings() {
    let text = "# my note\r\n\r\nallow-host a.com\nallow-host A.com # dup\nallow-host b.com\n";
    assert_eq!(
        remove_rule(text, "allow-host", "a.com"),
        (2, "# my note\r\n\r\nallow-host b.com\n".to_string())
    );
    let open = "default ask\r\nallow-app /bin/a\n# end\r";
    assert_eq!(remove_rule(open, "allow-app", "/bin/a"), (1, "default ask\r\n# end\r".to_string()));
    assert_eq!(remove_app(open, "/bin/a"), (1, "default ask\r\n# end\r".to_string()));
    assert_eq!(clear_rules(open), (1, "default ask\r\n# end\r".to_string()));
    assert_eq!(remove_rule("a\nallow-app x", "allow-app", "x"), (1, "a\n".to_string()));
    assert_eq!(remove_rule(open, "allow-app", "/bin/b"), (0, open.to_string()));
}

#[test]
fn settings_leave_other_lines_alone() {
    let text = "# a\r\nmode visibility\r\ndefault ask\r\nmode listen\n# end";
    assert_eq!(
        set_mode(text, Mode::Enforcement),
        "# a\r\nmode enforcement\ndefault ask\r\n# end"
    );
    assert_eq!(set_mode("# a\r\n# b", Mode::Visibility), "# a\r\n# b\nmode visibility\n");
}

#[test]
fn a_rule_stands_on_a_line_of_its_own() {
    let text = "default ask";
    let tail = add(text, "allow-host", "example.com").unwrap();
    assert_eq!(tail, "\nallow-host example.com\n");
    let after = format!("{text}{tail}");
    let rs = rules(&after);
    assert_eq!(rs.len(), 1);
    assert_eq!((rs[0].kind.as_str(), rs[0].value.as_str()), ("allow-host", "example.com"));
    assert_eq!(rs[0].comment, None);
    assert!(after.starts_with("default ask\n"));
    assert_eq!(append_line("", "x"), "x\n");
    assert_eq!(append_line("a\n", "x"), "x\n");
    assert_eq!(append_line("a", "x"), "\nx\n");
}

#[test]
fn adding_works_with_an_empty_note() {
    let tail = add_rule("", "allow-app", "/bin/a", Some("")).unwrap().unwrap();
    assert_eq!(tail, "allow-app /bin/a\t# \n");
    assert_eq!(add_rule(&tail, "allow-app", "/bin/a", None).unwrap(), None);
    assert_eq!(remove_rule(&tail, "allow-app", "/bin/a"), (1, String::new()));
}

#[test]
fn clearing_leaves_a_lonely_word_alone() {
    let (n, kept) = clear_rules("mode enforcement\nallow-app\ndeny-host x\n");
    assert_eq!((n, kept.as_str()), (1, "mode enforcement\nallow-app\n"));
    assert!(rules(&kept).is_empty());
    assert_eq!(Policy::load(&kept).mode(Mode::Visibility), Mode::Enforcement);
}
