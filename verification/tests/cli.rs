use pfsnitch::cli::{
    add_request, command, forget_request, has_flag, remove_request, AddError, Command, ForgetError,
    RemoveError,
};
use pfsnitch::words::{Effect, Mode};

fn args(line: &str) -> Vec<String> {
    line.split(' ').map(|w| w.to_string()).collect()
}

#[test]
fn commands_have_their_aliases() {
    let cases = vec![
        ("pfsnitch", Command::Help),
        ("pfsnitch help", Command::Help),
        ("pfsnitch -h", Command::Help),
        ("pfsnitch --help", Command::Help),
        ("pfsnitch probe", Command::Probe),
        ("pfsnitch visibility", Command::Run(Mode::Visibility)),
        ("pfsnitch listen", Command::Run(Mode::Visibility)),
        ("pfsnitch enforcement", Command::Run(Mode::Enforcement)),
        ("pfsnitch enforce", Command::Run(Mode::Enforcement)),
        ("pfsnitch rules", Command::Rules),
        ("pfsnitch list", Command::Rules),
        ("pfsnitch allow", Command::Add(Effect::Allow)),
        ("pfsnitch deny", Command::Add(Effect::Deny)),
        ("pfsnitch rm", Command::Remove),
        ("pfsnitch remove", Command::Remove),
        ("pfsnitch status", Command::Status),
        ("pfsnitch mode", Command::Mode),
        ("pfsnitch attribution", Command::Attribution),
        ("pfsnitch apps", Command::Apps),
        ("pfsnitch forget", Command::Forget),
        ("pfsnitch clear", Command::Clear),
        ("pfsnitch observe", Command::Unknown),
    ];
    for (line, want) in cases {
        assert_eq!(command(&args(line)), want, "{line}");
    }
    assert_eq!(command(&[]), Command::Help);
}

#[test]
fn flags_may_stand_anywhere() {
    assert!(has_flag(&args("pfsnitch rules --json"), "--json"));
    assert!(!has_flag(&args("pfsnitch rules"), "--json"));
    assert!(!has_flag(&args("pfsnitch rules --jsonx"), "--json"));
}

#[test]
fn rules_are_asked_for_in_words() {
    let cases = vec![
        ("host x", Effect::Allow, "allow-host", "x"),
        ("app /bin/a", Effect::Allow, "allow-app", "/bin/a"),
        ("dest 1.1.1.1", Effect::Allow, "allow-dest", "1.1.1.1"),
        ("ip 1.1.1.1", Effect::Allow, "allow-dest", "1.1.1.1"),
        ("host x --from /bin/a", Effect::Allow, "allow-host-from", "x /bin/a"),
        ("dest 1.1.1.1 --from /bin/a", Effect::Deny, "deny-dest-from", "1.1.1.1 /bin/a"),
        ("ip 1.1.1.1 --from /bin/a", Effect::Deny, "deny-dest-from", "1.1.1.1 /bin/a"),
        ("host x", Effect::Deny, "deny-host", "x"),
        ("app /bin/a --from /bin/b", Effect::Deny, "deny-app", "/bin/a"),
        ("dest 1.1.1.1", Effect::Deny, "deny-dest", "1.1.1.1"),
    ];
    for (tail, effect, kind, value) in cases {
        let r = add_request(&args(&format!("pfsnitch verb {tail}")), effect).unwrap();
        assert_eq!((r.kind.as_str(), r.value.as_str()), (kind, value), "{tail}");
        assert_eq!(r.note, None);
    }
    let r = add_request(&args("pfsnitch allow host x --note fine"), Effect::Allow).unwrap();
    assert_eq!(r.note.as_deref(), Some("fine"));
    let r = add_request(&args("pfsnitch allow host x --note"), Effect::Allow).unwrap();
    assert_eq!(r.note, None);
}

#[test]
fn a_narrowing_that_cannot_be_kept_is_refused() {
    let e = add_request(&args("pfsnitch deny host x --from"), Effect::Deny);
    assert!(matches!(e, Err(AddError::NoBinary)));
    assert!(matches!(add_request(&args("pfsnitch deny host"), Effect::Deny), Err(AddError::Usage)));
    let e = add_request(&args("pfsnitch deny planet x"), Effect::Deny);
    assert!(matches!(e, Err(AddError::UnknownTarget)));
}

#[test]
fn scoped_rules_are_removed_as_they_are_printed() {
    let r = remove_request(&args("pfsnitch rm allow-host x extra")).unwrap();
    assert_eq!(r, ("allow-host".to_string(), "x".to_string()));
    let r = remove_request(&args("pfsnitch rm deny-host-from x /opt/My App/a")).unwrap();
    assert_eq!(r, ("deny-host-from".to_string(), "x /opt/My App/a".to_string()));
    assert!(matches!(remove_request(&args("pfsnitch rm allow-host")), Err(RemoveError::Usage)));
    assert!(matches!(remove_request(&args("pfsnitch rm mode x")), Err(RemoveError::UnknownKind)));
}

#[test]
fn only_binaries_are_forgotten() {
    assert_eq!(forget_request(&args("pfsnitch forget /bin/a")).unwrap(), "/bin/a");
    assert!(matches!(forget_request(&args("pfsnitch forget")), Err(ForgetError::Usage)));
    assert!(matches!(forget_request(&args("pfsnitch forget ")), Err(ForgetError::Usage)));
    assert!(matches!(forget_request(&args("pfsnitch forget -")), Err(ForgetError::Unscoped)));
}
