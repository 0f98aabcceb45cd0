use pfsnitch::words::{kind_name, Answer, AttributionMode, Effect, Mode, Origin, Scope, KINDS};

#[test]
fn answers_are_one_word() {
    assert_eq!(Answer::parse(" allow-conn\n"), Some(Answer::AllowConn));
    assert_eq!(Answer::parse("allow-app"), Some(Answer::AllowApp));
    assert_eq!(Answer::parse("block-conn"), Some(Answer::Block));
    assert_eq!(Answer::parse("block"), Some(Answer::Block));
    assert_eq!(Answer::parse("block-app"), Some(Answer::BlockApp));
    assert_eq!(Answer::parse("timeout"), Some(Answer::Timeout));
    assert_eq!(Answer::parse("Allow-conn"), None);
    assert_eq!(Answer::parse(""), None);
}

#[test]
fn modes_keep_their_former_names() {
    for w in ["visibility", "listen", "observe", " VISIBILITY "] {
        assert_eq!(Mode::parse(w), Some(Mode::Visibility), "{w}");
    }
    for w in ["enforcement", "enforce", "Enforce"] {
        assert_eq!(Mode::parse(w), Some(Mode::Enforcement), "{w}");
    }
    assert_eq!(Mode::parse("off"), None);
    for m in [Mode::Visibility, Mode::Enforcement] {
        assert_eq!(Mode::parse(m.as_str()), Some(m));
    }
    assert!(Mode::Enforcement.enforcing());
    assert!(!Mode::Visibility.enforcing());
}

#[test]
fn backends_read_back() {
    for a in [AttributionMode::Kernel, AttributionMode::Procstat] {
        assert_eq!(AttributionMode::parse(a.as_str()), Some(a));
    }
    assert_eq!(AttributionMode::parse("Kernel"), Some(AttributionMode::Kernel));
    assert_eq!(AttributionMode::parse("sockstat"), None);
}

#[test]
fn origins_have_their_words() {
    assert_eq!(Origin::Approved.adjective(), "approved");
    assert_eq!(Origin::Learned.adjective(), "learned");
    assert_eq!(Origin::Approved.verb(), "approved for");
    assert_eq!(Origin::Learned.verb(), "learned from");
}

#[test]
fn every_kind_is_listed_once() {
    let mut names = Vec::new();
    for e in [Effect::Allow, Effect::Deny] {
        for s in [Scope::App, Scope::Host, Scope::Dest, Scope::HostFrom, Scope::DestFrom] {
            names.push(kind_name(e, s));
        }
    }
    names.sort();
    let mut listed = KINDS.to_vec();
    listed.sort();
    assert_eq!(names, listed);
}
