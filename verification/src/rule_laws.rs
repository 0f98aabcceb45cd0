//! What rules mean, said of the parts of a connection and of the lines of a file.
use crate::addr::{ip_of, ip_text, is_v6, IpAddr};
use crate::line::{
    is_value, is_word, lemma_entry_back, lemma_scoped_back, lemma_word_is_value,
};
use crate::number::dec;
use crate::pattern::{any_covers, covers, Conn, PatternView};
use crate::platform::lowercase;
use crate::policy::{
    after_lines, directive, loaded, seen_conn, verdict, DirectiveView, PolicyView,
};
use crate::policy_laws::{
    answered, lemma_ip_is_spellable, lemma_plain_is_word, lemma_target_is_word,
};
use crate::target::{is_spellable, lemma_target_round_trip, target_text};
use crate::text::lines;
use crate::words::{
    attribution_of, kind_of, kind_text, lemma_kind_back, mode_of, verdict_of, Answer,
    AttributionMode, Effect, Mode, Scope, Verdict,
};
use vstd::prelude::*;

verus! {

// ---------------------------------------------------------------------------
// What one rule covers.
// ---------------------------------------------------------------------------

/// A rule for an application covers every connection of that binary, wherever it
/// goes, and no other.
pub proof fn lemma_app_rules_cover(e: Seq<char>, c: Conn)
    ensures
        covers(PatternView::App(e), c) <==> c.exe == Some(e),
{
}

/// A rule for an address covers the connections to that address, on its port or on
/// every port, of every binary and whether or not a name was seen for the address.
pub proof fn lemma_address_rules_cover(a: IpAddr, port: Option<u16>, c: Conn)
    ensures
        covers(PatternView::Dest(a, port), c) <==> c.dst == a && (port is None || port == Some(
            c.dport,
        )),
{
}

/// A rule for an address and a binary covers the same, as far as that binary goes.
pub proof fn lemma_scoped_address_rules_cover(e: Seq<char>, a: IpAddr, port: Option<u16>, c: Conn)
    ensures
        covers(PatternView::DestFrom(e, a, port), c) <==> c.exe == Some(e) && c.dst == a && (port
            is None || port == Some(c.dport)),
{
}

/// What an address rule covers does not depend on the name that was seen.
pub proof fn lemma_address_rules_ignore_names(
    e: Seq<char>,
    a: IpAddr,
    port: Option<u16>,
    c: Conn,
    host: Option<Seq<char>>,
)
    ensures
        covers(PatternView::Dest(a, port), c) == covers(
            PatternView::Dest(a, port),
            Conn { host, ..c },
        ),
        covers(PatternView::DestFrom(e, a, port), c) == covers(
            PatternView::DestFrom(e, a, port),
            Conn { host, ..c },
        ),
{
}

/// A rule for a name covers the connections to it, at every address, on its port or
/// on every port. Behind a leading `*.` stands a domain: the rule covers the domain
/// and whatever ends in a dot and the domain.
pub proof fn lemma_name_rules_cover(e: Seq<char>, name: Seq<char>, port: Option<u16>, c: Conn)
    ensures
        ({
            let n = name.len() as int;
            let met = c.host matches Some(h) && (h == name || n >= 2 && name[0] == '*' && name[1]
                == '.' && (h == name.subrange(2, n) || h.len() >= n - 1 && h.subrange(
                h.len() - (n - 1),
                h.len() as int,
            ) == name.subrange(1, n)));
            let open = port is None || port == Some(c.dport);
            &&& covers(PatternView::Host(name, port), c) <==> met && open
            &&& covers(PatternView::HostFrom(e, name, port), c) <==> c.exe == Some(e) && met
                && open
        }),
{
    let n = name.len() as int;
    if let Some(h) = c.host {
        if n >= 2 {
            assert(name.skip(2) =~= name.subrange(2, n));
            assert(name.skip(1) =~= name.subrange(1, n));
            if h.len() >= n - 1 {
                assert(h.skip(h.len() - (n - 1)) =~= h.subrange(
                    h.len() - (n - 1),
                    h.len() as int,
                ));
            }
        }
    }
}

/// A subdomain of any depth is covered by the wildcard of its domain, and so is the
/// domain; a name that merely ends in the same letters is not.
pub proof fn lemma_wildcards_cover_subdomains(domain: Seq<char>, sub: Seq<char>, c: Conn)
    ensures
        c.host == Some(sub + seq!['.'] + domain) ==> covers(
            PatternView::Host(seq!['*', '.'] + domain, None),
            c,
        ),
        c.host == Some(domain) ==> covers(PatternView::Host(seq!['*', '.'] + domain, None), c),
        c.host == Some(sub + domain) && sub.len() > 0 && sub.last() != '.' && sub != seq!['*', '.']
            ==> !covers(PatternView::Host(seq!['*', '.'] + domain, None), c),
{
    let rule = seq!['*', '.'] + domain;
    let n = rule.len() as int;
    lemma_name_rules_cover(domain, rule, None, c);
    assert(rule.subrange(2, n) =~= domain);
    assert(rule.subrange(1, n) =~= seq!['.'] + domain);
    let below = sub + seq!['.'] + domain;
    assert(below.subrange(below.len() - (n - 1), below.len() as int) =~= seq!['.'] + domain);
    let beside = sub + domain;
    if c.host == Some(beside) && sub.len() > 0 && sub.last() != '.' {
        assert(beside.subrange(beside.len() - (n - 1), beside.len() as int)[0] == sub.last());
        assert((seq!['.'] + domain)[0] == '.');
        assert(beside != domain) by {
            assert(beside.len() != domain.len());
        }
        if beside == rule {
            assert(sub.len() == 2);
            assert(sub =~= seq!['*', '.']) by {
                assert(sub[0] == beside[0] && sub[1] == beside[1]);
            }
        }
    }
}

// ---------------------------------------------------------------------------
// What a policy decides.
// ---------------------------------------------------------------------------

/// A connection is denied exactly if some deny rule covers it or, where no rule at
/// all covers it, the default denies; and it is allowed exactly if no deny rule
/// covers it and some allow rule does, or none does and the default allows.
pub proof fn lemma_decisions(p: PolicyView, c: Conn)
    ensures
        ({
            let denied = exists|x: PatternView| p.deny.contains(x) && #[trigger] covers(x, c);
            let allowed = exists|x: PatternView| p.allow.contains(x) && #[trigger] covers(x, c);
            &&& verdict(p, c) == Verdict::Deny <==> denied || !allowed && p.default
                == Verdict::Deny
            &&& verdict(p, c) == Verdict::Allow <==> !denied && (allowed || p.default
                == Verdict::Allow)
            &&& verdict(p, c) == Verdict::Ask <==> !denied && !allowed && p.default
                == Verdict::Ask
        }),
{
}

/// An allow rule that covers a connection opens it, unless a deny rule covers it
/// too; and without a rule that covers it the default stands.
pub proof fn lemma_allow_opens(p: PolicyView, x: PatternView, c: Conn)
    requires
        forall|y: PatternView| p.deny.contains(y) ==> !#[trigger] covers(y, c),
    ensures
        p.allow.contains(x) && covers(x, c) ==> verdict(p, c) == Verdict::Allow,
        (forall|y: PatternView| p.allow.contains(y) ==> !#[trigger] covers(y, c)) ==> verdict(p, c)
            == p.default,
{
}

/// An address that is denied is denied to everyone, by whatever name it was reached.
pub proof fn lemma_denied_addresses_stay_denied(
    p: PolicyView,
    a: IpAddr,
    exe: Option<Seq<char>>,
    host: Option<Seq<char>>,
    dport: u16,
)
    ensures
        p.deny.contains(PatternView::Dest(a, None)) ==> verdict(p, seen_conn(exe, a, host, dport))
            == Verdict::Deny,
        p.deny.contains(PatternView::Dest(a, Some(dport))) ==> verdict(
            p,
            seen_conn(exe, a, host, dport),
        ) == Verdict::Deny,
{
    let c = seen_conn(exe, a, host, dport);
    assert(covers(PatternView::Dest(a, None), c));
    assert(covers(PatternView::Dest(a, Some(dport)), c));
}

/// A binary that is denied is denied everything.
pub proof fn lemma_denied_binaries_stay_denied(
    p: PolicyView,
    e: Seq<char>,
    dst: IpAddr,
    host: Option<Seq<char>>,
    dport: u16,
)
    ensures
        p.deny.contains(PatternView::App(e)) ==> verdict(
            p,
            seen_conn(Some(e), dst, host, dport),
        ) == Verdict::Deny,
{
    assert(covers(PatternView::App(e), seen_conn(Some(e), dst, host, dport)));
}

/// A connection is judged by its binary, its address, its name in lower case and
/// its port, as they are.
pub proof fn lemma_connections_keep_their_parts(
    exe: Option<Seq<char>>,
    dst: IpAddr,
    host: Option<Seq<char>>,
    dport: u16,
)
    ensures
        ({
            let c = seen_conn(exe, dst, host, dport);
            &&& c.exe == exe
            &&& c.dst == dst
            &&& c.dport == dport
            &&& host is None ==> c.host is None
            &&& host matches Some(h) ==> c.host == Some(lowercase(h))
        }),
{
}

// ---------------------------------------------------------------------------
// What the lines of a file mean.
// ---------------------------------------------------------------------------

/// How the rule types are spelled.
pub proof fn lemma_rule_words()
    ensures
        kind_of("allow-app"@) == Some((Effect::Allow, Scope::App)),
        kind_of("deny-app"@) == Some((Effect::Deny, Scope::App)),
        kind_of("allow-host"@) == Some((Effect::Allow, Scope::Host)),
        kind_of("deny-host"@) == Some((Effect::Deny, Scope::Host)),
        kind_of("allow-dest"@) == Some((Effect::Allow, Scope::Dest)),
        kind_of("deny-dest"@) == Some((Effect::Deny, Scope::Dest)),
        kind_of("allow-host-from"@) == Some((Effect::Allow, Scope::HostFrom)),
        kind_of("deny-host-from"@) == Some((Effect::Deny, Scope::HostFrom)),
        kind_of("allow-dest-from"@) == Some((Effect::Allow, Scope::DestFrom)),
        kind_of("deny-dest-from"@) == Some((Effect::Deny, Scope::DestFrom)),
        kind_text(Effect::Allow, Scope::App) == "allow-app"@,
        kind_text(Effect::Deny, Scope::App) == "deny-app"@,
        kind_text(Effect::Allow, Scope::Host) == "allow-host"@,
        kind_text(Effect::Deny, Scope::Host) == "deny-host"@,
        kind_text(Effect::Allow, Scope::Dest) == "allow-dest"@,
        kind_text(Effect::Deny, Scope::Dest) == "deny-dest"@,
        kind_text(Effect::Allow, Scope::HostFrom) == "allow-host-from"@,
        kind_text(Effect::Deny, Scope::HostFrom) == "deny-host-from"@,
        kind_text(Effect::Allow, Scope::DestFrom) == "allow-dest-from"@,
        kind_text(Effect::Deny, Scope::DestFrom) == "deny-dest-from"@,
{
    lemma_kind_back(Effect::Allow, Scope::App);
    lemma_kind_back(Effect::Deny, Scope::App);
    lemma_kind_back(Effect::Allow, Scope::Host);
    lemma_kind_back(Effect::Deny, Scope::Host);
    lemma_kind_back(Effect::Allow, Scope::Dest);
    lemma_kind_back(Effect::Deny, Scope::Dest);
    lemma_kind_back(Effect::Allow, Scope::HostFrom);
    lemma_kind_back(Effect::Deny, Scope::HostFrom);
    lemma_kind_back(Effect::Allow, Scope::DestFrom);
    lemma_kind_back(Effect::Deny, Scope::DestFrom);
}

proof fn lemma_entry_means(k: Seq<char>, v: Seq<char>)
    requires
        is_word(k),
        is_value(v),
    ensures
        directive(k + seq![' '] + v) == crate::policy::directive_of(k, v),
{
    lemma_entry_back(k, v, None);
    assert(crate::line::entry_line(k, v, None) =~= k + seq![' '] + v);
}

/// A rule line means the rule of its type about what it spells: the binary; the
/// name or the address, with the port behind a colon if it has one; and for a
/// scoped rule the binary after it.
pub proof fn lemma_rule_lines_mean(
    effect: Effect,
    name: Seq<char>,
    a: IpAddr,
    port: Option<u16>,
    e: Seq<char>,
    sep: char,
)
    requires
        is_word(name),
        is_spellable(name),
        is_value(e),
        sep == ' ' || sep == '\t',
    ensures
        ({
            let head = |s: Scope| kind_text(effect, s) + seq![' '];
            let named = match port {
                None => name,
                Some(p) => if is_v6(name) {
                    seq!['['] + name + seq![']', ':'] + dec(p as nat)
                } else {
                    name + seq![':'] + dec(p as nat)
                },
            };
            let at = match port {
                None => ip_text(a),
                Some(p) => if a is V6 {
                    seq!['['] + ip_text(a) + seq![']', ':'] + dec(p as nat)
                } else {
                    ip_text(a) + seq![':'] + dec(p as nat)
                },
            };
            &&& directive(head(Scope::App) + e) == DirectiveView::Rule(effect, PatternView::App(e))
            &&& directive(head(Scope::Host) + named) == DirectiveView::Rule(
                effect,
                PatternView::Host(lowercase(name), port),
            )
            &&& directive(head(Scope::Dest) + at) == DirectiveView::Rule(
                effect,
                PatternView::Dest(a, port),
            )
            &&& directive(head(Scope::HostFrom) + (named + seq![sep] + e)) == DirectiveView::Rule(
                effect,
                PatternView::HostFrom(e, lowercase(name), port),
            )
            &&& directive(head(Scope::DestFrom) + (at + seq![sep] + e)) == DirectiveView::Rule(
                effect,
                PatternView::DestFrom(e, a, port),
            )
        }),
{
    lemma_kind_back(effect, Scope::App);
    lemma_kind_back(effect, Scope::Host);
    lemma_kind_back(effect, Scope::Dest);
    lemma_kind_back(effect, Scope::HostFrom);
    lemma_kind_back(effect, Scope::DestFrom);
    lemma_plain_is_word(kind_text(effect, Scope::App));
    lemma_plain_is_word(kind_text(effect, Scope::Host));
    lemma_plain_is_word(kind_text(effect, Scope::Dest));
    lemma_plain_is_word(kind_text(effect, Scope::HostFrom));
    lemma_plain_is_word(kind_text(effect, Scope::DestFrom));
    lemma_ip_is_spellable(a);
    lemma_family_shows(a);
    let ip = ip_text(a);
    let named = target_text(name, port);
    let at = target_text(ip, port);
    lemma_target_is_word(name, port);
    lemma_target_is_word(ip, port);
    lemma_target_round_trip(name, port);
    lemma_target_round_trip(ip, port);
    lemma_word_is_value(named);
    lemma_word_is_value(at);
    lemma_scoped_back(named, sep, e);
    lemma_scoped_back(at, sep, e);
    lemma_entry_means(kind_text(effect, Scope::App), e);
    lemma_entry_means(kind_text(effect, Scope::Host), named);
    lemma_entry_means(kind_text(effect, Scope::Dest), at);
    lemma_entry_means(kind_text(effect, Scope::HostFrom), named + seq![sep] + e);
    lemma_entry_means(kind_text(effect, Scope::DestFrom), at + seq![sep] + e);
}

/// How an address is written shows its family.
pub proof fn lemma_family_shows(a: IpAddr)
    ensures
        is_v6(ip_text(a)) <==> a is V6,
{
    crate::addr::lemma_ip_round_trip(a);
}

// ---------------------------------------------------------------------------
// Settings.
// ---------------------------------------------------------------------------

/// The words for verdicts, modes and backends. Verdicts are spelled exactly; modes
/// and backends in any case and with white space around them.
pub proof fn lemma_setting_words(w: Seq<char>)
    ensures
        verdict_of(w) == Some(Verdict::Allow) <==> w == "allow"@,
        verdict_of(w) == Some(Verdict::Deny) <==> w == "deny"@,
        verdict_of(w) == Some(Verdict::Ask) <==> w == "ask"@,
        mode_of(w) == Some(Mode::Visibility) <==> {
            let x = lowercase(crate::text::trim(w));
            x == "visibility"@ || x == "listen"@ || x == "observe"@
        },
        mode_of(w) == Some(Mode::Enforcement) <==> {
            let x = lowercase(crate::text::trim(w));
            x == "enforcement"@ || x == "enforce"@
        },
        attribution_of(w) == Some(AttributionMode::Kernel) <==> lowercase(crate::text::trim(w))
            == "kernel"@,
        attribution_of(w) == Some(AttributionMode::Procstat) <==> lowercase(crate::text::trim(w))
            == "procstat"@,
{
    reveal_strlit("allow");
    reveal_strlit("deny");
    reveal_strlit("ask");
    reveal_strlit("visibility");
    reveal_strlit("listen");
    reveal_strlit("observe");
    reveal_strlit("enforcement");
    reveal_strlit("enforce");
    reveal_strlit("kernel");
    reveal_strlit("procstat");
    assert("allow"@.len() == 5 && "deny"@.len() == 4 && "ask"@.len() == 3);
    assert("visibility"@[0] == 'v' && "listen"@[0] == 'l' && "observe"@[0] == 'o');
    assert("enforcement"@[0] == 'e' && "enforce"@[0] == 'e');
    assert("kernel"@[0] != "procstat"@[0]);
}

proof fn lemma_setting_keys()
    ensures
        kind_of("default"@) is None,
        kind_of("prompt"@) is None,
        kind_of("app-id"@) is None,
        kind_of("mode"@) is None,
        kind_of("attribution"@) is None,
        is_word("default"@),
        is_word("prompt"@),
        is_word("app-id"@),
        is_word("mode"@),
        is_word("attribution"@),
        "prompt"@ != "default"@,
        "app-id"@ != "default"@,
        "app-id"@ != "prompt"@,
        "mode"@ != "default"@,
        "mode"@ != "prompt"@,
        "mode"@ != "app-id"@,
        "attribution"@ != "default"@,
        "attribution"@ != "prompt"@,
        "attribution"@ != "app-id"@,
        "attribution"@ != "mode"@,
{
    reveal_strlit("default");
    reveal_strlit("prompt");
    reveal_strlit("app-id");
    reveal_strlit("mode");
    reveal_strlit("attribution");
    assert("default"@.len() == 7 && "prompt"@.len() == 6 && "app-id"@.len() == 6);
    assert("mode"@.len() == 4 && "attribution"@.len() == 11);
    assert("app-id"@[0] != "prompt"@[0]);
    crate::policy_laws::lemma_kind_lengths();
    assert(kind_of("attribution"@) is None) by {
        reveal_strlit("allow-app");
        reveal_strlit("deny-app");
        reveal_strlit("allow-host");
        reveal_strlit("deny-host");
        reveal_strlit("allow-dest");
        reveal_strlit("deny-dest");
        reveal_strlit("allow-host-from");
        reveal_strlit("allow-dest-from");
        reveal_strlit("deny-host-from");
        reveal_strlit("deny-dest-from");
        assert("attribution"@.len() == 11);
        assert("allow-app"@.len() == 9 && "deny-app"@.len() == 8 && "allow-host"@.len() == 10);
        assert("deny-host"@.len() == 9 && "allow-dest"@.len() == 10 && "deny-dest"@.len() == 9);
        assert("allow-host-from"@.len() == 15 && "allow-dest-from"@.len() == 15);
        assert("deny-host-from"@.len() == 14 && "deny-dest-from"@.len() == 14);
    }
    lemma_plain_is_word("default"@);
    lemma_plain_is_word("prompt"@);
    lemma_plain_is_word("app-id"@);
    lemma_plain_is_word("mode"@);
    lemma_plain_is_word("attribution"@);
}

/// A setting line means the setting of its name: the default verdict, the program
/// that asks, the mode, the backend, and the hash and path of a known binary.
pub proof fn lemma_setting_lines_mean(v: Seq<char>, sha: Seq<char>, e: Seq<char>)
    requires
        is_value(v),
        is_word(sha),
        is_value(e),
    ensures
        verdict_of(v) matches Some(d) ==> directive("default"@ + seq![' '] + v)
            == DirectiveView::Default(d),
        directive("prompt"@ + seq![' '] + v) == DirectiveView::Prompt(v),
        mode_of(v) matches Some(m) ==> directive("mode"@ + seq![' '] + v) == DirectiveView::Mode(
            m,
        ),
        attribution_of(v) matches Some(a) ==> directive("attribution"@ + seq![' '] + v)
            == DirectiveView::Attribution(a),
        directive("app-id"@ + seq![' '] + (sha + seq![' '] + e)) == DirectiveView::AppId(
            e,
            lowercase(sha),
        ),
        verdict_of(v) is None ==> directive("default"@ + seq![' '] + v) is Unclear,
        mode_of(v) is None ==> directive("mode"@ + seq![' '] + v) is Unclear,
        attribution_of(v) is None ==> directive("attribution"@ + seq![' '] + v) is Unclear,
{
    lemma_setting_keys();
    lemma_entry_means("default"@, v);
    lemma_entry_means("prompt"@, v);
    lemma_entry_means("mode"@, v);
    lemma_entry_means("attribution"@, v);
    lemma_scoped_back(sha, ' ', e);
    lemma_entry_means("app-id"@, sha + seq![' '] + e);
}

/// Of several lines that set the same thing the last one counts, and what no line
/// sets is as in an empty file.
pub proof fn lemma_last_setting_counts(ls: Seq<Seq<char>>, i: int)
    ensures
        0 <= i < ls.len() && (forall|j: int|
            i < j < ls.len() ==> !(directive(#[trigger] ls[j]) is Default)) ==> (directive(ls[i])
            matches DirectiveView::Default(v) ==> after_lines(ls).default == v),
        0 <= i < ls.len() && (forall|j: int|
            i < j < ls.len() ==> !(directive(#[trigger] ls[j]) is Prompt)) ==> (directive(ls[i])
            matches DirectiveView::Prompt(v) ==> after_lines(ls).prompt == Some(v)),
        0 <= i < ls.len() && (forall|j: int|
            i < j < ls.len() ==> !(directive(#[trigger] ls[j]) is Mode)) ==> (directive(ls[i])
            matches DirectiveView::Mode(v) ==> after_lines(ls).mode == Some(v)),
        0 <= i < ls.len() && (forall|j: int|
            i < j < ls.len() ==> !(directive(#[trigger] ls[j]) is Attribution)) ==> (directive(
            ls[i],
        ) matches DirectiveView::Attribution(v) ==> after_lines(ls).attribution == Some(v)),
        (forall|j: int| 0 <= j < ls.len() ==> !(directive(#[trigger] ls[j]) is Default))
            ==> after_lines(ls).default == Verdict::Ask,
        (forall|j: int| 0 <= j < ls.len() ==> !(directive(#[trigger] ls[j]) is Prompt))
            ==> after_lines(ls).prompt is None,
        (forall|j: int| 0 <= j < ls.len() ==> !(directive(#[trigger] ls[j]) is Mode))
            ==> after_lines(ls).mode is None,
        (forall|j: int| 0 <= j < ls.len() ==> !(directive(#[trigger] ls[j]) is Attribution))
            ==> after_lines(ls).attribution is None,
    decreases ls.len(),
{
    if ls.len() > 0 {
        let h = ls.drop_last();
        let n = h.len() as int;
        lemma_last_setting_counts(h, i);
        assert forall|j: int| 0 <= j < n implies #[trigger] h[j] == ls[j] by {}
        assert(ls.last() == ls[n]);
    }
}

/// The last identity that a file gives for a binary is the one on record, and a
/// binary that it names none for has none.
pub proof fn lemma_last_identity_counts(ls: Seq<Seq<char>>, e: Seq<char>, i: int)
    ensures
        0 <= i < ls.len() && (forall|j: int|
            i < j < ls.len() ==> !(directive(#[trigger] ls[j]) matches DirectiveView::AppId(x, _)
                && x == e)) ==> (directive(ls[i]) matches DirectiveView::AppId(x, sha) ==> (x == e
            ==> after_lines(ls).app_id.contains_key(e) && after_lines(ls).app_id[e] == sha)),
        (forall|j: int|
            0 <= j < ls.len() ==> !(directive(#[trigger] ls[j]) matches DirectiveView::AppId(x, _)
                && x == e)) ==> !after_lines(ls).app_id.contains_key(e),
    decreases ls.len(),
{
    if ls.len() > 0 {
        let h = ls.drop_last();
        let n = h.len() as int;
        lemma_last_identity_counts(h, e, i);
        assert forall|j: int| 0 <= j < n implies #[trigger] h[j] == ls[j] by {}
        assert(ls.last() == ls[n]);
    }
}

/// A rule of a file decides about the connections it covers, wherever in the file
/// it stands: a deny denies them, and an allow opens those that no deny covers.
pub proof fn lemma_written_rules_decide(text: Seq<char>, i: int, x: PatternView, c: Conn)
    requires
        0 <= i < lines(text).len(),
        covers(x, c),
    ensures
        directive(lines(text)[i]) == DirectiveView::Rule(Effect::Deny, x) ==> verdict(
            loaded(text),
            c,
        ) == Verdict::Deny,
        directive(lines(text)[i]) == DirectiveView::Rule(Effect::Allow, x) && (forall|
            j: int,
            y: PatternView,
        |
            0 <= j < lines(text).len() && #[trigger] directive(lines(text)[j])
                == DirectiveView::Rule(Effect::Deny, y) ==> !#[trigger] covers(y, c)) ==> verdict(
            loaded(text),
            c,
        ) == Verdict::Allow,
{
    let ls = lines(text);
    let p = loaded(text);
    crate::policy_laws::lemma_lines_by_parts(ls);
    if directive(ls[i]) == DirectiveView::Rule(Effect::Deny, x) {
        assert(crate::policy_laws::says(ls, DirectiveView::Rule(Effect::Deny, x)));
        assert(p.deny.contains(x));
    }
    if directive(ls[i]) == DirectiveView::Rule(Effect::Allow, x) && (forall|
        j: int,
        y: PatternView,
    |
        0 <= j < ls.len() && #[trigger] directive(ls[j]) == DirectiveView::Rule(Effect::Deny, y)
            ==> !#[trigger] covers(y, c)) {
        assert(crate::policy_laws::says(ls, DirectiveView::Rule(Effect::Allow, x)));
        assert(p.allow.contains(x));
        assert forall|y: PatternView| p.deny.contains(y) implies !#[trigger] covers(y, c) by {
            assert(crate::policy_laws::says(ls, DirectiveView::Rule(Effect::Deny, y)));
            let j = choose|j: int|
                0 <= j < ls.len() && directive(#[trigger] ls[j]) == DirectiveView::Rule(
                    Effect::Deny,
                    y,
                );
            assert(directive(ls[j]) == DirectiveView::Rule(Effect::Deny, y));
        }
        assert(any_covers(p.allow, c));
    }
}

// ---------------------------------------------------------------------------
// What an answer changes.
// ---------------------------------------------------------------------------

/// The connections of one binary to one destination on one port: by name, where a
/// name was seen that is neither empty nor a placeholder, and else by address; of
/// every binary, where the binary is not known.
pub open spec fn is_meant(
    c: Conn,
    exe: Option<Seq<char>>,
    dst: IpAddr,
    host: Option<Seq<char>>,
    dport: u16,
) -> bool {
    &&& exe is Some ==> c.exe == exe
    &&& c.dport == dport
    &&& match host {
        Some(h) => if h.len() > 0 && h != "-"@ {
            covers(PatternView::Host(lowercase(h), None), c)
        } else {
            c.dst == dst
        },
        None => c.dst == dst,
    }
}

/// An answer about a connection decides about every connection that is meant by it
/// and leaves every other as it was: approving opens what no deny covers, and
/// blocking denies.
pub proof fn lemma_connection_answers(
    p: PolicyView,
    exe: Option<Seq<char>>,
    dst: IpAddr,
    host: Option<Seq<char>>,
    dport: u16,
    c: Conn,
)
    ensures
        ({
            let meant = is_meant(c, exe, dst, host, dport);
            let opened = verdict(answered(p, Answer::AllowConn, exe, dst, host, dport), c);
            let blocked = verdict(answered(p, Answer::Block, exe, dst, host, dport), c);
            let denied = exists|x: PatternView| p.deny.contains(x) && #[trigger] covers(x, c);
            &&& opened == (if !meant {
                verdict(p, c)
            } else if denied {
                Verdict::Deny
            } else {
                Verdict::Allow
            })
            &&& blocked == (if meant {
                Verdict::Deny
            } else {
                verdict(p, c)
            })
        }),
{
    let x = crate::policy::narrowest(exe, dst, crate::policy::named(host), dport);
    assert(covers(x, c) == is_meant(c, exe, dst, host, dport));
    lemma_one_more_rule(p, Effect::Allow, x, c);
    lemma_one_more_rule(p, Effect::Deny, x, c);
}

proof fn lemma_one_more_rule(p: PolicyView, effect: Effect, x: PatternView, c: Conn)
    ensures
        ({
            let after = verdict(crate::policy::with_rule(p, effect, x), c);
            &&& !covers(x, c) ==> after == verdict(p, c)
            &&& covers(x, c) && effect == Effect::Deny ==> after == Verdict::Deny
            &&& covers(x, c) && effect == Effect::Allow && !any_covers(p.deny, c) ==> after
                == Verdict::Allow
            &&& effect == Effect::Allow && any_covers(p.deny, c) ==> after == Verdict::Deny
        }),
{
    let q = crate::policy::with_rule(p, effect, x);
    if !covers(x, c) {
        crate::policy_laws::lemma_rule_is_local(p, effect, x, c);
    } else {
        match effect {
            Effect::Allow => {
                assert(q.allow.contains(x));
            },
            Effect::Deny => {
                assert(q.deny.contains(x));
            },
        }
    }
}

/// An answer about an application decides about all of its connections and about
/// no other; where the application is not known it decides nothing, and neither
/// does no answer at all.
pub proof fn lemma_application_answers(
    p: PolicyView,
    exe: Option<Seq<char>>,
    dst: IpAddr,
    host: Option<Seq<char>>,
    dport: u16,
    c: Conn,
)
    ensures
        ({
            let meant = exe is Some && c.exe == exe;
            let opened = verdict(answered(p, Answer::AllowApp, exe, dst, host, dport), c);
            let blocked = verdict(answered(p, Answer::BlockApp, exe, dst, host, dport), c);
            let denied = exists|x: PatternView| p.deny.contains(x) && #[trigger] covers(x, c);
            &&& opened == (if !meant {
                verdict(p, c)
            } else if denied {
                Verdict::Deny
            } else {
                Verdict::Allow
            })
            &&& blocked == (if meant {
                Verdict::Deny
            } else {
                verdict(p, c)
            })
            &&& answered(p, Answer::Timeout, exe, dst, host, dport) == p
        }),
{
    if let Some(e) = exe {
        lemma_one_more_rule(p, Effect::Allow, PatternView::App(e), c);
        lemma_one_more_rule(p, Effect::Deny, PatternView::App(e), c);
    }
}

/// An answer touches rules only: the settings and the identities stay.
pub proof fn lemma_answers_change_rules_only(
    p: PolicyView,
    ans: Answer,
    exe: Option<Seq<char>>,
    dst: IpAddr,
    host: Option<Seq<char>>,
    dport: u16,
)
    ensures
        ({
            let q = answered(p, ans, exe, dst, host, dport);
            &&& q.default == p.default
            &&& q.prompt == p.prompt
            &&& q.app_id == p.app_id
            &&& q.mode == p.mode
            &&& q.attribution == p.attribution
            &&& p.allow.subset_of(q.allow)
            &&& p.deny.subset_of(q.deny)
        }),
{
}

/// What is wrong with a line, and the text it is about.
pub proof fn lemma_complaints_say_why(k: Seq<char>, v: Seq<char>)
    ensures
        verdict_of(v) is None ==> crate::policy::directive_of("default"@, v)
            == DirectiveView::Unclear(crate::policy::ComplaintView::BadDefault(v)),
        mode_of(v) is None ==> crate::policy::directive_of("mode"@, v) == DirectiveView::Unclear(
            crate::policy::ComplaintView::BadMode(v),
        ),
        attribution_of(v) is None ==> crate::policy::directive_of("attribution"@, v)
            == DirectiveView::Unclear(crate::policy::ComplaintView::BadAttribution(v)),
        crate::line::scoped_of(v) is None ==> crate::policy::directive_of("app-id"@, v)
            == DirectiveView::Unclear(crate::policy::ComplaintView::Incomplete("app-id"@)),
        kind_of(k) matches Some((_, Scope::Dest)) ==> (ip_of(crate::target::target_of(v).0) is None
            ==> crate::policy::directive_of(k, v) == DirectiveView::Unclear(
            crate::policy::ComplaintView::BadAddress(crate::target::target_of(v).0),
        )),
        (kind_of(k) matches Some((_, s)) && (s == Scope::HostFrom || s == Scope::DestFrom))
            && crate::line::scoped_of(v) is None ==> crate::policy::directive_of(k, v)
            == DirectiveView::Unclear(crate::policy::ComplaintView::Incomplete(k)),
        kind_of(k) matches Some((_, Scope::DestFrom)) ==> (crate::line::scoped_of(v) matches Some((
            d,
            _,
        )) ==> (ip_of(crate::target::target_of(d).0) is None ==> crate::policy::directive_of(k, v)
            == DirectiveView::Unclear(crate::policy::ComplaintView::BadAddress(d)))),
        kind_of(k) is None && k != "default"@ && k != "prompt"@ && k != "app-id"@ && k != "mode"@
            && k != "attribution"@ ==> crate::policy::directive_of(k, v) == DirectiveView::Unclear(
            crate::policy::ComplaintView::Unknown(k),
        ),
{
    lemma_setting_keys();
}

/// A line that says nothing asks for nothing.
pub proof fn lemma_empty_lines(raw: Seq<char>)
    ensures
        crate::line::body_of(raw).len() == 0 <==> directive(raw) == DirectiveView::Nothing,
        crate::line::body_of(raw).len() > 0 ==> directive(raw) == crate::policy::directive_of(
            crate::line::key_of(crate::line::body_of(raw)),
            crate::line::value_of(crate::line::body_of(raw)),
        ),
{
}

/// What an answer writes down: the type of its rule, what it is about, and a comment
/// that says where it came from.
pub proof fn lemma_recorded_lines(
    e: Seq<char>,
    dst: IpAddr,
    h: Seq<char>,
    dport: u16,
    origin: crate::words::Origin,
)
    requires
        h.len() > 0,
        h != "-"@,
    ensures
        ({
            let line = |ans: Answer, exe: Option<Seq<char>>, host: Option<Seq<char>>|
                crate::policy::recorded_line(ans, exe, dst, host, dport, origin);
            let by_name = target_text(h, Some(dport));
            let by_address = target_text(ip_text(dst), Some(dport));
            let how = if origin == crate::words::Origin::Approved {
                "approved"@
            } else {
                "learned"@
            };
            let for_whom = if origin == crate::words::Origin::Approved {
                "approved for"@
            } else {
                "learned from"@
            };
            let sp = seq![' '];
            let tab = seq!['\t'];
            &&& line(Answer::AllowApp, Some(e), Some(h)) == Some("allow-app"@ + sp + e)
            &&& line(Answer::BlockApp, Some(e), Some(h)) == Some(
                "deny-app"@ + sp + e + seq!['\t', '#', ' '] + "every destination"@,
            )
            &&& line(Answer::AllowConn, Some(e), Some(h)) == Some(
                "allow-host-from"@ + sp + (by_name + tab + e) + seq!['\t', '#', ' '] + (for_whom + sp
                    + e),
            )
            &&& line(Answer::AllowConn, Some(e), None) == Some(
                "allow-dest-from"@ + sp + (by_address + tab + e) + seq!['\t', '#', ' '] + (
                "no hostname seen; "@ + for_whom + sp + e),
            )
            &&& line(Answer::AllowConn, None, Some(h)) == Some(
                "allow-host"@ + sp + by_name + seq!['\t', '#', ' '] + (how
                    + "; unattributed connection"@),
            )
            &&& line(Answer::AllowConn, None, None) == Some(
                "allow-dest"@ + sp + by_address + seq!['\t', '#', ' '] + (how
                    + "; unattributed, no hostname seen"@),
            )
            &&& line(Answer::Block, Some(e), Some(h)) == Some(
                "deny-host-from"@ + sp + (by_name + tab + e) + seq!['\t', '#', ' ']
                    + "blocked for this app only"@,
            )
            &&& line(Answer::Block, Some(e), None) == Some(
                "deny-dest-from"@ + sp + (by_address + tab + e) + seq!['\t', '#', ' ']
                    + "no hostname seen; blocked for this app only"@,
            )
            &&& line(Answer::Block, None, Some(h)) == Some(
                "deny-host"@ + sp + by_name + seq!['\t', '#', ' ']
                    + "unattributed connection; blocked for every application"@,
            )
            &&& line(Answer::Block, None, None) == Some(
                "deny-dest"@ + sp + by_address + seq!['\t', '#', ' ']
                    + "unattributed, no hostname seen; blocked for every application"@,
            )
        }),
{
}

/// The identity of a binary is written down as its hash and its path.
pub proof fn lemma_identity_lines(e: Seq<char>, sha: Seq<char>)
    ensures
        crate::policy::identity_line(e, sha) == "app-id"@ + seq![' '] + (sha + seq!['\t'] + e) + seq![
            '\t',
            '#',
            ' ',
        ] + "identity when approved"@,
{
}

} // verus!
