//! What the commands list and print, and what they are asked for.
use crate::addr::ip_text;
use crate::apps::{
    allow_count, any_used, app_of, app_precedes, app_used, apps_in_order, base_name, by_binary,
    by_destination, effect_word, is_latest, latest, rule_used, rules_of, split_of, AppGroup,
    AppRule, SplitView,
};
use crate::cli::{
    add_request_of, after_flag, command_of, place_of, remove_request_of, spaced, AddError, AddView,
    Command, RemoveError,
};
use crate::json::{json_option, json_text};
use crate::layout::{left, right, signed};
use crate::line::{scoped_of, Entry};
use crate::number::dec;
use crate::order::precedes;
use crate::platform::lowercase;
use crate::policy::{opt_string, summary_text, PolicyView};
use crate::procinfo::ProbeEntry;
use crate::report::{
    app_rule_json, apps_json_text, apps_table_text, group_json, group_tables, groups_json,
    kind_count, probe_rows, probe_text, row_precedes, rule_rows, rule_rows_json, rules_json_text,
    rules_table_text, status_json_text, status_text,
};
use crate::seen::{age_text, Times};
use crate::target::target_of;
use crate::words::{kind_of, kind_text, Effect, Mode, Scope, KINDS};
use vstd::prelude::*;

verus! {

// ---------------------------------------------------------------------------
// Rules by application.
// ---------------------------------------------------------------------------

/// A rule for an application belongs to that binary and goes everywhere; a scoped
/// rule belongs to the binary it names and goes to its destination; any other rule
/// belongs to none. It denies exactly if its type does.
pub proof fn lemma_rules_are_taken_apart(kind: Seq<char>, v: Seq<char>)
    ensures
        ({
            let s = split_of(kind, v);
            &&& kind_of(kind) matches Some((_, Scope::App)) ==> s.app == v && s.dest
                == "all destinations"@
            &&& kind_of(kind) matches Some((_, Scope::Host)) ==> s.app.len() == 0 && s.dest == v
            &&& kind_of(kind) matches Some((_, Scope::Dest)) ==> s.app.len() == 0 && s.dest == v
            &&& kind_of(kind) matches Some((_, Scope::HostFrom)) ==> (scoped_of(v) matches Some((
                d,
                e,
            )) ==> s.app == e && s.dest == d)
            &&& kind_of(kind) matches Some((_, Scope::DestFrom)) ==> (scoped_of(v) matches Some((
                d,
                e,
            )) ==> s.app == e && s.dest == d)
            &&& kind_of(kind) matches Some((effect, _)) ==> (s.deny <==> effect == Effect::Deny)
        }),
{
    reveal_strlit("deny");
    reveal_strlit("allow-app");
    reveal_strlit("deny-app");
    reveal_strlit("allow-host");
    reveal_strlit("deny-host");
    reveal_strlit("allow-dest");
    reveal_strlit("deny-dest");
    reveal_strlit("allow-host-from");
    reveal_strlit("allow-dest-from");
    reveal_strlit("deny-host-from");
    reveal_strlit("deny-dest-from");
    if let Some((effect, _)) = kind_of(kind) {
        if effect == Effect::Deny {
            assert(kind.take(4) =~= "deny"@);
        } else {
            assert(kind[0] == 'a');
            assert(kind.take(4)[0] == 'a');
            assert("deny"@[0] == 'd');
        }
    }
    crate::text::lemma_find(v, crate::text::white());
}

/// The latest of the times picked out is one of them, and none of them is later;
/// there is none exactly if none is picked out.
pub proof fn lemma_latest_times(
    m: Times,
    pick: spec_fn((Seq<char>, Seq<char>)) -> bool,
    k: (Seq<char>, Seq<char>),
)
    requires
        m.dom().finite(),
    ensures
        m.contains_key(k) && pick(k) ==> (latest(m, pick) matches Some(t) && m[k] <= t),
        latest(m, pick) matches Some(t) ==> exists|w: (Seq<char>, Seq<char>)| #[trigger]
            m.contains_key(w) && pick(w) && m[w] == t,
{
    if m.contains_key(k) && pick(k) {
        lemma_some_latest(m, pick, m.dom());
        let t = choose|t: u64| is_latest(m, pick, t);
        assert(is_latest(m, pick, t));
    }
}

proof fn lemma_some_latest(
    m: Times,
    pick: spec_fn((Seq<char>, Seq<char>)) -> bool,
    s: Set<(Seq<char>, Seq<char>)>,
)
    requires
        s.finite(),
        s.subset_of(m.dom()),
        exists|k: (Seq<char>, Seq<char>)| #[trigger] s.contains(k) && pick(k),
    ensures
        exists|k: (Seq<char>, Seq<char>)| #[trigger]
            s.contains(k) && pick(k) && forall|j: (Seq<char>, Seq<char>)| #[trigger]
                s.contains(j) && pick(j) ==> m[j] <= m[k],
        s == m.dom() ==> exists|t: u64| is_latest(m, pick, t),
    decreases s.len(),
{
    let k = choose|k: (Seq<char>, Seq<char>)| #[trigger] s.contains(k) && pick(k);
    let rest = s.remove(k);
    let best = if exists|j: (Seq<char>, Seq<char>)| #[trigger] rest.contains(j) && pick(j) {
        lemma_some_latest(m, pick, rest);
        let b = choose|b: (Seq<char>, Seq<char>)| #[trigger]
            rest.contains(b) && pick(b) && forall|j: (Seq<char>, Seq<char>)| #[trigger]
                rest.contains(j) && pick(j) ==> m[j] <= m[b];
        if m[b] >= m[k] {
            b
        } else {
            k
        }
    } else {
        k
    };
    assert forall|j: (Seq<char>, Seq<char>)| #[trigger] s.contains(j) && pick(j) implies m[j]
        <= m[best] by {
        if j != k {
            assert(rest.contains(j));
        }
    }
    assert(s.contains(best) && pick(best));
    if s == m.dom() {
        assert(m.contains_key(best));
        assert forall|j: (Seq<char>, Seq<char>)| #[trigger] m.contains_key(j) && pick(j) implies m[j]
            <= m[best] by {
            assert(s.contains(j));
        }
        assert(is_latest(m, pick, m[best]));
    }
}

/// A rule for one binary and one destination was last of use when that binary went
/// to that destination, whatever the port; one for a whole application, when its
/// binary last went anywhere; and one for every binary, when any went there.
pub proof fn lemma_rules_are_of_use(m: Times, s: SplitView, bin: Seq<char>, at: Seq<char>)
    requires
        m.dom().finite(),
    ensures
        ({
            let host = lowercase(target_of(s.dest).0);
            let all = s.dest == "all destinations"@;
            &&& s.app.len() > 0 && !all ==> rule_used(m, s) == (if m.contains_key((s.app, host)) {
                Some(m[(s.app, host)])
            } else {
                None
            })
            &&& s.app.len() > 0 && all && m.contains_key((s.app, at)) ==> (rule_used(m, s) matches
                Some(t) && m[(s.app, at)] <= t)
            &&& s.app.len() > 0 && all ==> (rule_used(m, s) matches Some(t) ==> exists|
                w: (Seq<char>, Seq<char>),
            | #[trigger]
                m.contains_key(w) && w.0 == s.app && m[w] == t)
            &&& s.app.len() == 0 && m.contains_key((bin, host)) ==> (rule_used(m, s) matches Some(t)
                && m[(bin, host)] <= t)
            &&& s.app.len() == 0 ==> (rule_used(m, s) matches Some(t) ==> exists|
                w: (Seq<char>, Seq<char>),
            | #[trigger]
                m.contains_key(w) && w.1 == host && m[w] == t)
        }),
{
    let host = lowercase(target_of(s.dest).0);
    lemma_latest_times(m, by_binary(s.app), (s.app, at));
    lemma_latest_times(m, by_destination(host), (bin, host));
}

/// A named application was last seen when its binary last went anywhere.
pub proof fn lemma_applications_are_seen(m: Times, app: Seq<char>, rs: Seq<Entry>, at: Seq<char>)
    requires
        m.dom().finite(),
        app.len() > 0,
    ensures
        m.contains_key((app, at)) ==> (app_used(m, app, rs) matches Some(t) && m[(app, at)] <= t),
        app_used(m, app, rs) matches Some(t) ==> exists|w: (Seq<char>, Seq<char>)| #[trigger]
            m.contains_key(w) && w.0 == app && m[w] == t,
{
    lemma_latest_times(m, by_binary(app), (app, at));
}

/// The rules for every binary were last of use when the latest of them was.
pub proof fn lemma_common_rules_are_seen(m: Times, rs: Seq<Entry>, i: int)
    ensures
        app_used(m, Seq::empty(), rs) == any_used(m, rs),
        0 <= i < rs.len() ==> (rule_used(m, split_of(rs[i].key, rs[i].value)) matches Some(t) ==> (
        any_used(m, rs) matches Some(u) && t <= u)),
        any_used(m, rs) matches Some(u) ==> exists|j: int|
            0 <= j < rs.len() && rule_used(
                m,
                split_of((#[trigger] rs[j]).key, rs[j].value),
            ) == Some(u),
    decreases rs.len(),
{
    if rs.len() > 0 {
        let h = rs.drop_last();
        let n = h.len() as int;
        lemma_common_rules_are_seen(m, h, i);
        if 0 <= i < n {
            assert(h[i] == rs[i]);
        }
        assert(rs.last() == rs[n]);
        if let Some(u) = any_used(m, h) {
            let j = choose|j: int|
                0 <= j < h.len() && rule_used(
                    m,
                    split_of((#[trigger] h[j]).key, h[j].value),
                ) == Some(u);
            assert(rs[j] == h[j]);
        }
    }
}

/// The group of an application holds exactly its rules, in file order, and there is
/// a group exactly for every application that has a rule.
pub proof fn lemma_groups_hold_their_rules(
    a: Seq<Entry>,
    e: Entry,
    b: Seq<Entry>,
    app: Seq<char>,
)
    ensures
        rules_of(a + b, app) == rules_of(a, app) + rules_of(b, app),
        rules_of(seq![e], app) == (if split_of(e.key, e.value).app == app {
            seq![e]
        } else {
            Seq::empty()
        }),
        apps_in_order(a).contains(app) <==> exists|i: int|
            0 <= i < a.len() && split_of((#[trigger] a[i]).key, a[i].value).app == app,
    decreases a.len() + b.len(),
{
    assert(seq![e].drop_last() =~= Seq::<Entry>::empty());
    assert(seq![e].last() == e);
    assert(rules_of(Seq::<Entry>::empty(), app) =~= Seq::<Entry>::empty());
    assert(Seq::<Entry>::empty().push(e) =~= seq![e]);
    if b.len() == 0 {
        assert(a + b =~= a);
        assert(rules_of(a, app) + rules_of(b, app) =~= rules_of(a, app));
    } else {
        lemma_groups_hold_their_rules(a, e, b.drop_last(), app);
        assert((a + b).drop_last() =~= a + b.drop_last());
        assert((a + b).last() == b.last());
        assert(rules_of(a + b, app) =~= rules_of(a, app) + rules_of(b, app));
    }
    lemma_listed_applications(a, app);
}

proof fn lemma_listed_applications(a: Seq<Entry>, app: Seq<char>)
    ensures
        apps_in_order(a).contains(app) <==> exists|i: int|
            0 <= i < a.len() && app_of(#[trigger] a[i]) == app,
    decreases a.len(),
{
    if a.len() > 0 {
        let h = a.drop_last();
        let n = h.len() as int;
        lemma_listed_applications(h, app);
        let before = apps_in_order(h);
        let after = apps_in_order(a);
        assert(a.last() == a[n]);
        if exists|i: int| 0 <= i < h.len() && app_of(#[trigger] h[i]) == app {
            let i = choose|i: int| 0 <= i < h.len() && app_of(#[trigger] h[i]) == app;
            assert(a[i] == h[i]);
            let j = choose|j: int| 0 <= j < before.len() && before[j] == app;
            assert(after[j] == app);
        }
        if app_of(a[n]) == app {
            if !before.contains(app) {
                assert(after[before.len() as int] == app);
            }
        }
        if after.contains(app) && app_of(a[n]) != app {
            let j = choose|j: int| 0 <= j < after.len() && after[j] == app;
            assert(before[j] == app);
        }
        if exists|i: int| 0 <= i < a.len() && app_of(#[trigger] a[i]) == app {
            let i = choose|i: int| 0 <= i < a.len() && app_of(#[trigger] a[i]) == app;
            if i < n {
                assert(h[i] == a[i]);
            }
        }
    }
}

/// How many rules of a group allow is counted one by one.
pub proof fn lemma_allowing_rules_are_counted(a: Seq<Entry>, e: Entry)
    ensures
        allow_count(Seq::empty()) == 0,
        kind_of(e.key) matches Some((Effect::Allow, _)) ==> allow_count(a.push(e)) == allow_count(a)
            + 1,
        kind_of(e.key) matches Some((Effect::Deny, _)) ==> allow_count(a.push(e)) == allow_count(a),
{
    assert(a.push(e).drop_last() =~= a);
    lemma_rules_are_taken_apart(e.key, e.value);
}

/// How many rules are of a type is counted one by one.
pub proof fn lemma_types_are_counted(a: Seq<Entry>, e: Entry, kind: Seq<char>)
    ensures
        kind_count(Seq::empty(), kind) == 0,
        kind_count(a.push(e), kind) == kind_count(a, kind) + (if e.key == kind {
            1int
        } else {
            0
        }),
{
    assert(a.push(e).drop_last() =~= a);
}

/// One text comes before another exactly if it is a proper beginning of it or has
/// the smaller character where they first differ.
pub proof fn lemma_texts_are_ordered(a: Seq<char>, b: Seq<char>, k: int)
    requires
        0 <= k <= a.len(),
        k <= b.len(),
        forall|i: int| 0 <= i < k ==> a[i] == b[i],
    ensures
        k == a.len() && k < b.len() ==> precedes(a, b) && !precedes(b, a),
        k < a.len() && k < b.len() && a[k] < b[k] ==> precedes(a, b) && !precedes(b, a),
    decreases k,
{
    if k > 0 {
        assert(a[0] == b[0]);
        assert forall|i: int| 0 <= i < k - 1 implies a.skip(1)[i] == b.skip(1)[i] by {
            assert(a[i + 1] == b[i + 1]);
        }
        lemma_texts_are_ordered(a.skip(1), b.skip(1), k - 1);
    }
}

/// Applications are listed by the last part of their path, in any case, and the
/// rules for every binary after them; sockets by command, and then by port.
pub proof fn lemma_lists_are_ordered(a: Seq<char>, b: Seq<char>, p: ProbeEntry, q: ProbeEntry)
    ensures
        a.len() > 0 && b.len() == 0 ==> app_precedes(a, b) && !app_precedes(b, a),
        a.len() > 0 && b.len() > 0 ==> app_precedes(a, b) == precedes(
            lowercase(crate::text::split(a, '/').last()),
            lowercase(crate::text::split(b, '/').last()),
        ),
        p.owner.command@ != q.owner.command@ ==> row_precedes(p, q) == precedes(
            p.owner.command@,
            q.owner.command@,
        ),
        p.owner.command@ == q.owner.command@ ==> row_precedes(p, q) == (p.lport < q.lport),
{
    crate::order::lemma_precedes_total(p.owner.command@, q.owner.command@);
}

// ---------------------------------------------------------------------------
// Command lines.
// ---------------------------------------------------------------------------

/// The words for commands, former names included; no other word is one.
pub proof fn lemma_command_words(w: Seq<char>)
    ensures
        command_of(w) == Command::Probe <==> w == "probe"@,
        command_of(w) == Command::Run(Mode::Visibility) <==> w == "visibility"@ || w == "listen"@,
        command_of(w) == Command::Run(Mode::Enforcement) <==> w == "enforcement"@ || w == "enforce"@,
        command_of(w) == Command::Rules <==> w == "rules"@ || w == "list"@,
        command_of(w) == Command::Add(Effect::Allow) <==> w == "allow"@,
        command_of(w) == Command::Add(Effect::Deny) <==> w == "deny"@,
        command_of(w) == Command::Remove <==> w == "rm"@ || w == "remove"@,
        command_of(w) == Command::Status <==> w == "status"@,
        command_of(w) == Command::Mode <==> w == "mode"@,
        command_of(w) == Command::Attribution <==> w == "attribution"@,
        command_of(w) == Command::Apps <==> w == "apps"@,
        command_of(w) == Command::Forget <==> w == "forget"@,
        command_of(w) == Command::Clear <==> w == "clear"@,
        command_of(w) == Command::Help <==> w == "help"@ || w == "-h"@ || w == "--help"@,
{
    reveal_strlit("probe");
    reveal_strlit("visibility");
    reveal_strlit("listen");
    reveal_strlit("enforcement");
    reveal_strlit("enforce");
    reveal_strlit("rules");
    reveal_strlit("list");
    reveal_strlit("allow");
    reveal_strlit("deny");
    reveal_strlit("rm");
    reveal_strlit("remove");
    reveal_strlit("status");
    reveal_strlit("mode");
    reveal_strlit("attribution");
    reveal_strlit("apps");
    reveal_strlit("forget");
    reveal_strlit("clear");
    reveal_strlit("help");
    reveal_strlit("-h");
    reveal_strlit("--help");
    assert("probe"@.len() == 5 && "visibility"@.len() == 10 && "listen"@.len() == 6);
    assert("enforcement"@.len() == 11 && "enforce"@.len() == 7 && "rules"@.len() == 5);
    assert("list"@.len() == 4 && "allow"@.len() == 5 && "deny"@.len() == 4 && "rm"@.len() == 2);
    assert("remove"@.len() == 6 && "status"@.len() == 6 && "mode"@.len() == 4);
    assert("attribution"@.len() == 11 && "apps"@.len() == 4 && "forget"@.len() == 6);
    assert("clear"@.len() == 5 && "help"@.len() == 4 && "-h"@.len() == 2 && "--help"@.len() == 6);
    assert("probe"@[0] == 'p' && "rules"@[0] == 'r' && "allow"@[0] == 'a' && "clear"@[0] == 'c');
    assert("listen"@[0] == 'l' && "remove"@[0] == 'r' && "status"@[0] == 's' && "forget"@[0] == 'f'
        && "--help"@[0] == '-');
    assert("list"@[0] == 'l' && "deny"@[0] == 'd' && "mode"@[0] == 'm' && "apps"@[0] == 'a'
        && "help"@[0] == 'h');
    assert("enforcement"@[0] == 'e' && "attribution"@[0] == 'a');
    assert("rm"@[0] == 'r' && "-h"@[0] == '-');
}

/// The word after a flag is the one behind its first occurrence.
pub proof fn lemma_flags_have_values(args: Seq<Seq<char>>, flag: Seq<char>, i: int)
    requires
        0 <= i < args.len(),
        args[i] == flag,
        forall|j: int| 0 <= j < i ==> args[j] != flag,
    ensures
        place_of(args, flag) == i,
        i + 1 < args.len() ==> after_flag(args, flag) == Some(args[i + 1]),
        i + 1 == args.len() ==> after_flag(args, flag) is None,
    decreases i,
{
    if i > 0 {
        let rest = args.skip(1);
        assert(args[0] != flag);
        assert forall|j: int| 0 <= j < i - 1 implies rest[j] != flag by {
            assert(rest[j] == args[j + 1]);
        }
        lemma_flags_have_values(rest, flag, i - 1);
    }
}

/// A flag that does not occur has no value.
pub proof fn lemma_absent_flags(args: Seq<Seq<char>>, flag: Seq<char>)
    requires
        forall|j: int| 0 <= j < args.len() ==> args[j] != flag,
    ensures
        place_of(args, flag) == args.len(),
        after_flag(args, flag) is None,
    decreases args.len(),
{
    if args.len() > 0 {
        let rest = args.skip(1);
        assert(args[0] != flag);
        assert forall|j: int| 0 <= j < rest.len() implies rest[j] != flag by {
            assert(rest[j] == args[j + 1]);
        }
        lemma_absent_flags(rest, flag);
    }
}

/// A rule is asked for by its kind of destination and the destination; with a
/// binary behind `--from` it is for that binary alone, and what stands behind
/// `--note` is its comment.
pub proof fn lemma_additions_are_asked_for(args: Seq<Seq<char>>, effect: Effect)
    requires
        args.len() >= 4,
    ensures
        ({
            let from = after_flag(args, "--from"@);
            let bare = !args.contains("--from"@);
            let note = after_flag(args, "--note"@);
            let r = add_request_of(args, effect);
            let both = args[3] + seq![' '] + from->0;
            &&& args[2] == "host"@ && bare ==> r == Ok::<AddView, AddError>(
                AddView { kind: kind_text(effect, Scope::Host), value: args[3], note },
            )
            &&& (args[2] == "dest"@ || args[2] == "ip"@) && bare ==> r == Ok::<AddView, AddError>(
                AddView { kind: kind_text(effect, Scope::Dest), value: args[3], note },
            )
            &&& args[2] == "app"@ && bare ==> r == Ok::<AddView, AddError>(
                AddView { kind: kind_text(effect, Scope::App), value: args[3], note },
            )
            &&& args[2] == "host"@ && from is Some ==> r == Ok::<AddView, AddError>(
                AddView { kind: kind_text(effect, Scope::HostFrom), value: both, note },
            )
            &&& (args[2] == "dest"@ || args[2] == "ip"@) && from is Some ==> r == Ok::<
                AddView,
                AddError,
            >(AddView { kind: kind_text(effect, Scope::DestFrom), value: both, note })
            &&& !bare && from is None ==> r == Err::<AddView, AddError>(AddError::NoBinary)
        }),
{
    reveal_strlit("host");
    reveal_strlit("app");
    reveal_strlit("dest");
    reveal_strlit("ip");
    assert("host"@.len() == 4 && "app"@.len() == 3 && "dest"@.len() == 4 && "ip"@.len() == 2);
    assert("host"@[0] != "dest"@[0]);
    if !args.contains("--from"@) {
        assert forall|j: int| 0 <= j < args.len() implies args[j] != "--from"@ by {
            if args[j] == "--from"@ {
                assert(args.contains(args[j]));
            }
        }
        lemma_absent_flags(args, "--from"@);
    } else {
        lemma_present_flags(args, "--from"@);
    }
}

proof fn lemma_present_flags(args: Seq<Seq<char>>, flag: Seq<char>)
    requires
        args.contains(flag),
    ensures
        0 <= place_of(args, flag) < args.len(),
    decreases args.len(),
{
    if args[0] != flag {
        let i = choose|i: int| 0 <= i < args.len() && args[i] == flag;
        assert(args.skip(1)[i - 1] == flag);
        assert(args.skip(1).contains(flag));
        lemma_present_flags(args.skip(1), flag);
    }
}

/// A rule to remove is named by its type and its value; the value of a scoped rule
/// may be several words, which stand with one space between them.
pub proof fn lemma_removals_are_asked_for(args: Seq<Seq<char>>, w: Seq<Seq<char>>, x: Seq<char>)
    ensures
        args.len() < 4 ==> remove_request_of(args) == Err::<(Seq<char>, Seq<char>), RemoveError>(
            RemoveError::Usage,
        ),
        args.len() >= 4 && kind_of(args[2]) is None ==> remove_request_of(args) == Err::<
            (Seq<char>, Seq<char>),
            RemoveError,
        >(RemoveError::UnknownKind),
        args.len() >= 4 ==> (kind_of(args[2]) matches Some((_, s)) ==> remove_request_of(args)
            == Ok::<(Seq<char>, Seq<char>), RemoveError>(
            (
                args[2],
                if s == Scope::HostFrom || s == Scope::DestFrom {
                    spaced(args.skip(3))
                } else {
                    args[3]
                },
            ),
        )),
        spaced(seq![x]) == x,
        w.len() > 0 ==> spaced(w.push(x)) == spaced(w) + seq![' '] + x,
{
    assert(w.push(x).drop_last() =~= w);
}

// ---------------------------------------------------------------------------
// What is printed.
// ---------------------------------------------------------------------------

/// Rules are printed as a JSON array: one object to a line, with its type, its value
/// and its comment, and a comma behind every one but the last.
pub proof fn lemma_rules_are_printed_as_json(es: Seq<Entry>, n: int)
    ensures
        rules_json_text(es) == "[\n"@ + rule_rows_json(es, es.len() as int) + "]\n"@,
        n <= 0 ==> rule_rows_json(es, n) == Seq::<char>::empty(),
        0 < n < es.len() ==> rule_rows_json(es, n) == rule_rows_json(es, n - 1) + "  "@ + (
        "{\"kind\":\""@ + json_text(es[n - 1].key) + "\",\"value\":\""@ + json_text(
            es[n - 1].value,
        ) + "\",\"comment\":"@ + json_option(es[n - 1].comment) + "}"@) + seq![','] + seq!['\n'],
        0 < n && n == es.len() ==> rule_rows_json(es, n) == rule_rows_json(es, n - 1) + "  "@ + (
        "{\"kind\":\""@ + json_text(es[n - 1].key) + "\",\"value\":\""@ + json_text(
            es[n - 1].value,
        ) + "\",\"comment\":"@ + json_option(es[n - 1].comment) + "}"@) + seq!['\n'],
{
    if 0 < n && n == es.len() {
        let head = rule_rows_json(es, n - 1) + "  "@ + ("{\"kind\":\""@ + json_text(es[n - 1].key)
            + "\",\"value\":\""@ + json_text(es[n - 1].value) + "\",\"comment\":"@ + json_option(
            es[n - 1].comment,
        ) + "}"@);
        assert(head + Seq::<char>::empty() =~= head);
    }
}

/// Rules are printed as a table: one to a line, the type in a column, the value, and
/// the comment behind a hash where there is one. An empty list is said to be empty.
pub proof fn lemma_rules_are_printed_as_a_table(es: Seq<Entry>, n: int, path: Seq<char>)
    ensures
        es.len() == 0 ==> rules_table_text(es, path) == "no rules in "@ + path + seq!['\n'],
        es.len() > 0 ==> rules_table_text(es, path) == rule_rows(es, es.len() as int),
        n <= 0 ==> rule_rows(es, n) == Seq::<char>::empty(),
        0 < n <= es.len() ==> rule_rows(es, n) == rule_rows(es, n - 1) + (match es[n - 1].comment {
            Some(c) => left(es[n - 1].key, 11) + " "@ + left(es[n - 1].value, 44) + " # "@ + c
                + seq!['\n'],
            None => left(es[n - 1].key, 11) + " "@ + es[n - 1].value + seq!['\n'],
        }),
{
}

/// Sockets are printed one to a line: command, process, binary, the far end or what
/// an unconnected one is bound to, and how the owner was found.
pub proof fn lemma_sockets_are_printed(rows: Seq<ProbeEntry>, n: int)
    requires
        0 < n <= rows.len(),
    ensures
        ({
            let e = rows[n - 1];
            let far = match e.peer {
                Some((ip, port)) => ip_text(ip) + seq![':'] + dec(port as nat),
                None => "(unconnected) "@ + ip_text(e.local) + seq![':'] + dec(e.lport as nat),
            };
            probe_rows(rows, n) == probe_rows(rows, n - 1) + (left(e.owner.command@, 16) + " "@
                + right(signed(e.owner.pid as int), 7) + "  "@ + left(e.owner.path@, 40) + " "@
                + left(far, 26) + " "@ + e.confidence.name() + seq!['\n'])
        }),
        probe_rows(rows, 0) == Seq::<char>::empty(),
{
}

/// An application is printed with its counts and when it was last seen, and under it
/// its rules, each with what it does, where it goes, when it was last of use and its
/// type.
pub proof fn lemma_applications_are_printed(gs: Seq<AppGroup>, now: u64, n: int, path: Seq<char>)
    requires
        0 < n <= gs.len(),
    ensures
        ({
            let g = gs[n - 1];
            let name = if g.app@.len() == 0 {
                "(any application)"@
            } else {
                g.app@
            };
            group_tables(gs, now, n) == group_tables(gs, now, n - 1) + (name + "  ["@ + dec(
                g.allow as nat,
            ) + " allow, "@ + dec(g.deny as nat) + " deny]  last: "@ + age_text(g.last_seen, now)
                + seq!['\n']) + crate::report::group_rows(g.rules@, now, g.rules@.len() as int)
        }),
        forall|rules: Seq<AppRule>, i: int|
            0 < i <= rules.len() ==> #[trigger] crate::report::group_rows(rules, now, i)
                == crate::report::group_rows(rules, now, i - 1) + ("    "@ + left(
                if rules[i - 1].split.deny {
                    "deny"@
                } else {
                    "allow"@
                },
                5,
            ) + " "@ + left(rules[i - 1].split.dest@, 40) + " "@ + left(
                age_text(rules[i - 1].last_seen, now),
                10,
            ) + " "@ + rules[i - 1].rule.kind@ + seq!['\n']),
        apps_table_text(gs, path, now) == group_tables(gs, now, gs.len() as int),
{
}

/// The members that a rule of an application is printed with as JSON.
pub proof fn lemma_application_rules_as_json(a: AppRule, now: u64)
    ensures
        ({
            let time = match a.last_seen {
                Some(x) => dec(x as nat),
                None => "null"@,
            };
            let comment = match opt_string(a.rule.comment) {
                Some(t) => seq!['"'] + json_text(t) + seq!['"'],
                None => "null"@,
            };
            app_rule_json(a, now) == ("{\"kind\":\""@ + json_text(a.rule.kind@)
                + "\",\"value\":\""@ + json_text(a.rule.value@) + "\",\"dest\":\""@ + json_text(
                a.split.dest@,
            ) + "\",\"effect\":\""@ + (if a.split.deny {
                "deny"@
            } else {
                "allow"@
            }) + "\","@) + ("\"last_seen\":"@ + time + ",\"last_seen_ago\":\""@ + json_text(
                age_text(a.last_seen, now),
            ) + "\","@) + "\"comment\":"@ + comment + "}"@
        }),
{
    let time = match a.last_seen {
        Some(x) => dec(x as nat),
        None => "null"@,
    };
    let comment = match opt_string(a.rule.comment) {
        Some(t) => seq!['"'] + json_text(t) + seq!['"'],
        None => "null"@,
    };
    let word = if a.split.deny {
        "deny"@
    } else {
        "allow"@
    };
    reveal(crate::report::age_members);
    reveal(crate::report::rule_members);
    reveal(app_rule_json);
    assert(crate::report::json_time(a.last_seen) == time);
    assert(json_option(opt_string(a.rule.comment)) == comment);
    assert(effect_word(a.split.deny) == word);
    assert(crate::report::age_members(a.last_seen, now) == "\"last_seen\":"@ + time
        + ",\"last_seen_ago\":\""@ + json_text(age_text(a.last_seen, now)) + "\","@);
}

/// The status says whether a daemon runs, in which mode, by which file, who asks,
/// how many rules of each type there are, and how many in all.
pub proof fn lemma_status_is_printed(
    running: bool,
    mode: Mode,
    path: Seq<char>,
    prompt: Seq<char>,
    p: PolicyView,
    es: Seq<Entry>,
)
    ensures
        ({
            let word = if running {
                "running"@
            } else {
                "stopped"@
            };
            &&& status_json_text(running, mode, path, prompt, es) == "{\"daemon\":\""@ + word
                + "\",\"mode\":\""@ + mode.name() + "\",\"policy\":\""@ + json_text(path)
                + "\",\"prompt\":\""@ + json_text(prompt) + "\",\"rules\":{"@
                + crate::report::counts_json(es, 10) + "},\"total\":"@ + dec(es.len()) + "}\n"@
            &&& status_text(running, mode, path, prompt, p, es) == "daemon:  "@ + word
                + "\nmode:    "@ + mode.name() + "\npolicy:  "@ + path + "\nprompt:  "@ + prompt
                + "\ndefault: "@ + summary_text(p) + "\n"@ + crate::report::count_rows(es, 10) + (
            "  "@ + left("total"@, 11) + " "@ + dec(es.len()) + seq!['\n'])
        }),
        Mode::Visibility.name() == "visibility"@,
        Mode::Enforcement.name() == "enforcement"@,
{
}

/// The counts of the rule types are printed in the order in which the types are
/// listed, and each is how many rules are of its type.
pub proof fn lemma_counts_are_printed(es: Seq<Entry>, n: int)
    requires
        0 < n <= 10,
    ensures
        ({
            let kind = KINDS@[n - 1]@;
            &&& crate::report::count_rows(es, n) == crate::report::count_rows(es, n - 1) + ("  "@
                + left(kind, 11) + " "@ + dec(kind_count(es, kind)) + seq!['\n'])
            &&& n == 1 ==> crate::report::counts_json(es, n) == "\""@ + kind + "\":"@ + dec(
                kind_count(es, kind),
            )
            &&& n > 1 ==> crate::report::counts_json(es, n) == crate::report::counts_json(es, n - 1)
                + seq![','] + "\""@ + kind + "\":"@ + dec(kind_count(es, kind))
        }),
        crate::report::count_rows(es, 0) == Seq::<char>::empty(),
{
    if n == 1 {
        let none = Seq::<char>::empty();
        assert(crate::report::counts_json(es, 0) =~= none);
        assert(none + none + "\""@ =~= "\""@);
    }
}

/// The members that an application is printed with as JSON: its path, directory and
/// name, its counts, when it was last seen, and its rules.
pub proof fn lemma_applications_as_json(gs: Seq<AppGroup>, now: u64, n: int)
    requires
        0 < n <= gs.len(),
    ensures
        ({
            let g = gs[n - 1];
            let app = g.app@;
            let dir = if app.len() == 0 {
                Seq::empty()
            } else {
                app.take(app.len() - base_name(app).len())
            };
            let name = if app.len() == 0 {
                "any application"@
            } else {
                base_name(app)
            };
            let one = |k: Seq<char>, v: Seq<char>|
                "    \""@ + k + "\":\""@ + json_text(v) + "\",\n"@;
            let time = match g.last_seen {
                Some(x) => dec(x as nat),
                None => "null"@,
            };
            let who = one("app"@, app) + one("dir"@, dir) + one(
                "dir_short"@,
                crate::report::shortened(dir, 15),
            ) + one("name"@, name);
            let counts = "    \"allow\":"@ + dec(g.allow as nat) + ",\"deny\":"@ + dec(
                g.deny as nat,
            ) + ",\"total\":"@ + dec(g.rules@.len()) + ",\n"@;
            let age = "\"last_seen\":"@ + time + ",\"last_seen_ago\":\""@ + json_text(
                age_text(g.last_seen, now),
            ) + "\","@;
            &&& group_json(g, now) == "  {\n"@ + who + counts + "    "@ + age
                + "\n    \"rules\":[\n"@ + crate::report::app_rules_json(
                g.rules@,
                now,
                g.rules@.len() as int,
            ) + "    ]\n  }"@
            &&& n < gs.len() ==> groups_json(gs, now, n) == groups_json(gs, now, n - 1)
                + group_json(g, now) + seq![','] + seq!['\n']
            &&& n == gs.len() ==> groups_json(gs, now, n) == groups_json(gs, now, n - 1)
                + group_json(g, now) + seq!['\n']
        }),
        apps_json_text(gs, now) == "{\"apps\":[\n"@ + groups_json(gs, now, gs.len() as int)
            + "]}\n"@,
{
    reveal(crate::report::age_members);
    reveal(crate::report::identity_members);
    reveal(crate::report::count_members);
    reveal(crate::report::member);
    reveal(group_json);
    let g = gs[n - 1];
    let time = match g.last_seen {
        Some(x) => dec(x as nat),
        None => "null"@,
    };
    assert(crate::report::json_time(g.last_seen) == time);
    if n == gs.len() {
        let head = groups_json(gs, now, n - 1) + group_json(g, now);
        assert(head + Seq::<char>::empty() =~= head);
    }
}

/// The rules of an application are printed one to a line, with a comma behind every
/// one but the last.
pub proof fn lemma_application_rules_are_printed(rules: Seq<AppRule>, now: u64, n: int)
    requires
        0 < n <= rules.len(),
    ensures
        n < rules.len() ==> crate::report::app_rules_json(rules, now, n)
            == crate::report::app_rules_json(rules, now, n - 1) + "      "@ + app_rule_json(
            rules[n - 1],
            now,
        ) + seq![','] + seq!['\n'],
        n == rules.len() ==> crate::report::app_rules_json(rules, now, n)
            == crate::report::app_rules_json(rules, now, n - 1) + "      "@ + app_rule_json(
            rules[n - 1],
            now,
        ) + seq!['\n'],
{
    if n == rules.len() {
        let head = crate::report::app_rules_json(rules, now, n - 1) + "      "@ + app_rule_json(
            rules[n - 1],
            now,
        );
        assert(head + Seq::<char>::empty() =~= head);
    }
}

/// The name of a binary is what stands behind the last slash of its path, and its
/// directory is what stands before it, slash and all.
pub proof fn lemma_paths_are_taken_apart(path: Seq<char>)
    ensures
        ({
            let name = base_name(path);
            let dir = path.take(path.len() - name.len());
            &&& name.len() <= path.len()
            &&& dir + name == path
            &&& dir == crate::report::dir_of(path)
            &&& forall|i: int| 0 <= i < name.len() ==> #[trigger] name[i] != '/'
            &&& dir.len() > 0 ==> dir.last() == '/'
        }),
    decreases path.len(),
{
    let slash = crate::text::just('/');
    crate::report::lemma_base_fits(path);
    crate::text::lemma_find(path, slash);
    let i = crate::text::find(path, slash);
    let name = base_name(path);
    if i < path.len() {
        let rest = path.skip(i + 1);
        lemma_paths_are_taken_apart(rest);
        crate::text::lemma_split_first(path.take(i), '/', rest);
        assert(path.take(i) + seq!['/'] + rest =~= path);
        assert(crate::text::split(rest, '/').len() > 0);
        assert(name == base_name(rest));
        let dir = path.take(path.len() - name.len());
        let below = rest.take(rest.len() - name.len());
        if below.len() > 0 {
            assert(dir.last() == below.last());
        } else {
            assert(dir.last() == path[i]);
        }
    } else {
        assert(crate::text::split(path, '/') =~= seq![path]);
        assert forall|j: int| 0 <= j < name.len() implies #[trigger] name[j] != '/' by {
            assert(!slash(path[j]));
        }
    }
}

/// A directory that is too long keeps its end behind an ellipsis, from the first
/// slash in it where there is one.
pub proof fn lemma_directories_are_shortened(dir: Seq<char>, max: nat, i: int)
    requires
        max > 0,
    ensures
        ({
            let r = crate::report::shortened(dir, max);
            let tail = dir.subrange(dir.len() - (max - 1), dir.len() as int);
            &&& dir.len() <= max ==> r == dir
            &&& dir.len() > max && 0 <= i < tail.len() && tail[i] == '/' && (forall|j: int|
                0 <= j < i ==> tail[j] != '/') ==> r == seq!['\u{2026}'] + tail.subrange(
                i,
                tail.len() as int,
            )
            &&& dir.len() > max && (forall|j: int| 0 <= j < tail.len() ==> tail[j] != '/') ==> r
                == seq!['\u{2026}'] + tail
        }),
{
    if dir.len() > max {
        let slash = crate::text::just('/');
        let tail = dir.subrange(dir.len() - (max - 1), dir.len() as int);
        assert(dir.skip(dir.len() - (max - 1)) =~= tail);
        crate::text::lemma_find(tail, slash);
        if 0 <= i < tail.len() && tail[i] == '/' && (forall|j: int| 0 <= j < i ==> tail[j] != '/') {
            crate::text::lemma_find_is(tail, slash, i);
            assert(tail.skip(i) =~= tail.subrange(i, tail.len() as int));
        }
    }
}

/// The report on sockets starts with its heading and shows every socket once, by
/// command and then by port.
pub proof fn lemma_sockets_are_sorted(rows: Seq<ProbeEntry>)
    ensures
        ({
            let list = crate::report::arranged_rows(rows);
            &&& probe_text(rows) == (left("COMMAND"@, 16) + " "@ + right("PID"@, 7) + "  "@ + left(
                "PATH"@,
                40,
            ) + " "@ + left("REMOTE"@, 26) + " "@ + "HOW"@ + seq!['\n']) + probe_rows(
                list,
                list.len() as int,
            )
            &&& list.to_multiset() == rows.to_multiset()
            &&& forall|i: int, j: int|
                0 <= i < j < list.len() ==> !row_precedes(#[trigger] list[j], #[trigger] list[i])
        }),
    decreases rows.len(),
{
    broadcast use vstd::seq_lib::group_to_multiset_ensures;

    if rows.len() > 0 {
        lemma_sockets_are_sorted(rows.drop_last());
        lemma_placed_row(crate::report::arranged_rows(rows.drop_last()), rows.last());
        assert(rows.drop_last().push(rows.last()) =~= rows);
    } else {
        assert(crate::report::arranged_rows(rows) =~= rows);
    }
}

proof fn lemma_row_order(a: ProbeEntry, b: ProbeEntry, c: ProbeEntry)
    ensures
        !(row_precedes(a, b) && row_precedes(b, a)),
        !row_precedes(b, a) && !row_precedes(c, b) ==> !row_precedes(c, a),
{
    let (x, y, z) = (a.owner.command@, b.owner.command@, c.owner.command@);
    crate::order::lemma_precedes_total(x, y);
    crate::order::lemma_precedes_total(y, z);
    crate::order::lemma_precedes_total(x, z);
    if precedes(x, y) && precedes(y, z) {
        crate::order::lemma_precedes_transitive(x, y, z);
    }
}

proof fn lemma_placed_row(list: Seq<ProbeEntry>, e: ProbeEntry)
    requires
        forall|i: int, j: int|
            0 <= i < j < list.len() ==> !row_precedes(#[trigger] list[j], #[trigger] list[i]),
    ensures
        ({
            let p = crate::report::placed_row(list, e);
            &&& p.to_multiset() == list.to_multiset().insert(e)
            &&& forall|i: int, j: int|
                0 <= i < j < p.len() ==> !row_precedes(#[trigger] p[j], #[trigger] p[i])
            &&& forall|i: int| 0 <= i < p.len() ==> #[trigger] p[i] == e || list.contains(p[i])
        }),
    decreases list.len(),
{
    broadcast use vstd::seq_lib::group_to_multiset_ensures;

    let p = crate::report::placed_row(list, e);
    if list.len() > 0 && row_precedes(e, list.last()) {
        let h = list.drop_last();
        let q = crate::report::placed_row(h, e);
        assert forall|i: int, j: int| 0 <= i < j < h.len() implies !row_precedes(
            #[trigger] h[j],
            #[trigger] h[i],
        ) by {
            assert(h[i] == list[i] && h[j] == list[j]);
        }
        lemma_placed_row(h, e);
        assert(h.push(list.last()) =~= list);
        assert(p == q.push(list.last()));
        assert forall|i: int| 0 <= i < p.len() implies #[trigger] p[i] == e || list.contains(
            p[i],
        ) by {
            if i < q.len() {
                assert(p[i] == q[i]);
                if q[i] != e {
                    let k = choose|k: int| 0 <= k < h.len() && h[k] == q[i];
                    assert(list[k] == p[i]);
                }
            } else {
                assert(list[list.len() - 1] == p[i]);
            }
        }
        assert forall|i: int, j: int| 0 <= i < j < p.len() implies !row_precedes(
            #[trigger] p[j],
            #[trigger] p[i],
        ) by {
            if j < q.len() {
                assert(p[i] == q[i] && p[j] == q[j]);
            } else {
                assert(p[i] == q[i]);
                if q[i] == e {
                    lemma_row_order(e, list.last(), e);
                } else {
                    assert(h.contains(q[i]));
                    let k = choose|k: int| 0 <= k < h.len() && h[k] == q[i];
                    assert(list[k] == q[i]);
                    assert(list[list.len() - 1] == list.last());
                }
            }
        }
        assert(list.to_multiset() =~= h.to_multiset().insert(list.last()));
        assert(p.to_multiset() =~= q.to_multiset().insert(list.last()));
        assert(p.to_multiset() =~= list.to_multiset().insert(e));
    } else {
        assert forall|i: int, j: int| 0 <= i < j < p.len() implies !row_precedes(
            #[trigger] p[j],
            #[trigger] p[i],
        ) by {
            if j < list.len() {
                assert(p[i] == list[i] && p[j] == list[j]);
            } else {
                let last = list[list.len() - 1];
                lemma_row_order(list[i], last, e);
                if i < list.len() - 1 {
                    assert(!row_precedes(last, list[i]));
                } else {
                    assert(list[i] == last);
                }
            }
        }
        assert forall|i: int| 0 <= i < p.len() implies #[trigger] p[i] == e || list.contains(
            p[i],
        ) by {
            if i < list.len() {
                assert(list[i] == p[i]);
            }
        }
    }
}

/// Columns are filled with spaces to their width, on the right or on the left, and
/// what is wider than its column is kept whole.
pub proof fn lemma_columns(s: Seq<char>, width: int, i: int)
    ensures
        left(s, width).len() == (if s.len() >= width {
            s.len() as int
        } else {
            width
        }),
        right(s, width).len() == left(s, width).len(),
        0 <= i < s.len() ==> left(s, width)[i] == s[i],
        s.len() <= i < width ==> left(s, width)[i] == ' ',
        0 <= i < s.len() ==> right(s, width)[right(s, width).len() - s.len() + i] == s[i],
        0 <= i < width - s.len() ==> right(s, width)[i] == ' ',
{
}

/// A number below zero is written with a minus sign in front.
pub proof fn lemma_signed_numbers(n: int)
    ensures
        n >= 0 ==> signed(n) == dec(n as nat),
        n < 0 ==> signed(n) == "-"@ + dec((-n) as nat),
{
    reveal_strlit("-");
    assert("-"@ =~= seq!['-']);
}

/// The summary counts the rules of a policy by their type.
pub proof fn lemma_summaries(p: PolicyView)
    ensures
        ({
            let apps = |s: Set<crate::pattern::PatternView>|
                Set::new(|e: Seq<char>| s.contains(crate::pattern::PatternView::App(e))).len();
            let hosts = Set::new(
                |t: (Seq<char>, Option<u16>)|
                    p.allow.contains(crate::pattern::PatternView::Host(t.0, t.1)),
            ).len();
            let dests = Set::new(
                |t: (crate::addr::IpAddr, Option<u16>)|
                    p.allow.contains(crate::pattern::PatternView::Dest(t.0, t.1)),
            ).len();
            summary_text(p) == "default="@ + p.default.name() + " allow-app="@ + dec(apps(p.allow))
                + " deny-app="@ + dec(apps(p.deny)) + " allow-host="@ + dec(hosts)
                + " allow-dest="@ + dec(dests)
        }),
{
    assert(crate::pattern::apps_in(p.allow) =~= Set::new(
        |e: Seq<char>| p.allow.contains(crate::pattern::PatternView::App(e)),
    ));
    assert(crate::pattern::apps_in(p.deny) =~= Set::new(
        |e: Seq<char>| p.deny.contains(crate::pattern::PatternView::App(e)),
    ));
    assert(crate::pattern::hosts_in(p.allow) =~= Set::new(
        |t: (Seq<char>, Option<u16>)|
            p.allow.contains(crate::pattern::PatternView::Host(t.0, t.1)),
    ));
    assert(crate::pattern::dests_in(p.allow) =~= Set::new(
        |t: (crate::addr::IpAddr, Option<u16>)|
            p.allow.contains(crate::pattern::PatternView::Dest(t.0, t.1)),
    ));
}

/// A list of applications has one group for each, in order: with the rules that
/// belong to it, one for one and in file order, how many allow and how many deny,
/// and when each was last of use.
pub proof fn lemma_application_lists(v: Seq<AppGroup>, rs: Seq<Entry>, m: Times, i: int, j: int)
    requires
        crate::apps::is_app_list(v, rs, m),
        0 <= i < v.len(),
        0 <= j < v[i].rules@.len(),
    ensures
        ({
            let order = crate::apps::arranged(apps_in_order(rs));
            let g = v[i];
            let own = rules_of(rs, g.app@);
            let a = g.rules@[j];
            &&& v.len() == order.len()
            &&& g.app@ == order[i]
            &&& g.rules@.len() == own.len()
            &&& g.allow == allow_count(own)
            &&& g.allow + g.deny == own.len()
            &&& g.last_seen == (if g.app@.len() == 0 {
                any_used(m, own)
            } else {
                latest(m, |k: (Seq<char>, Seq<char>)| k.0 == g.app@)
            })
            &&& a.rule@ == own[j]
            &&& a.split@ == split_of(own[j].key, own[j].value)
            &&& a.last_seen == rule_used(m, split_of(own[j].key, own[j].value))
        }),
{
    let g = v[i];
    assert(crate::apps::is_group(g, crate::apps::arranged(apps_in_order(rs))[i], rs, m));
    assert(crate::apps::reports(g.rules@[j], rules_of(rs, g.app@)[j], m));
    assert(by_binary(g.app@) =~= (|k: (Seq<char>, Seq<char>)| k.0 == g.app@));
}

/// Every application that has a rule has its group.
pub proof fn lemma_every_application_is_listed(
    v: Seq<AppGroup>,
    rs: Seq<Entry>,
    m: Times,
    k: int,
)
    requires
        crate::apps::is_app_list(v, rs, m),
        0 <= k < rs.len(),
    ensures
        exists|i: int|
            0 <= i < v.len() && (#[trigger] v[i]).app@ == split_of(rs[k].key, rs[k].value).app,
{
    broadcast use vstd::seq_lib::group_to_multiset_ensures;

    let app = split_of(rs[k].key, rs[k].value).app;
    let first = apps_in_order(rs);
    let order = crate::apps::arranged(first);
    crate::apps::lemma_every_rule_is_listed(rs, k);
    crate::apps::lemma_arranged(first);
    assert(first.contains(app));
    assert(first.to_multiset().count(app) > 0);
    assert(order.to_multiset().count(app) > 0);
    assert(order.contains(app));
    let i = choose|i: int| 0 <= i < order.len() && order[i] == app;
    assert(crate::apps::is_group(v[i], order[i], rs, m));
}

/// Inside a JSON string a quote, a backslash and the control characters are written
/// with a backslash, and every other character as it is.
pub proof fn lemma_json_escapes(c: char)
    ensures
        crate::json::escaped('"') == "\\\""@,
        crate::json::escaped('\\') == "\\\\"@,
        crate::json::escaped('\n') == "\\n"@,
        crate::json::escaped('\r') == "\\r"@,
        crate::json::escaped('\t') == "\\t"@,
        c != '"' && c != '\\' && c as u32 >= 0x20 ==> crate::json::escaped(c) == seq![c],
        c != '\n' && c != '\r' && c != '\t' && (c as u32) < 0x20 ==> crate::json::escaped(c).take(4)
            == "\\u00"@ && crate::json::escaped(c).len() == 6,
{
    reveal_strlit("\\\"");
    reveal_strlit("\\\\");
    reveal_strlit("\\n");
    reveal_strlit("\\r");
    reveal_strlit("\\t");
    reveal_strlit("\\u00");
    assert(crate::json::escaped('"') =~= "\\\""@);
    assert(crate::json::escaped('\\') =~= "\\\\"@);
    assert(crate::json::escaped('\n') =~= "\\n"@);
    assert(crate::json::escaped('\r') =~= "\\r"@);
    assert(crate::json::escaped('\t') =~= "\\t"@);
    if c != '\n' && c != '\r' && c != '\t' && (c as u32) < 0x20 {
        assert(crate::json::escaped(c).take(4) =~= "\\u00"@);
    }
}

/// A text is written inside a JSON string character by character, and one that is
/// missing is null.
pub proof fn lemma_json_texts(s: Seq<char>, c: char)
    ensures
        json_text(Seq::empty()) == Seq::<char>::empty(),
        json_text(s.push(c)) == json_text(s) + crate::json::escaped(c),
        json_option(None) == "null"@,
        json_option(Some(s)) == seq!['"'] + json_text(s) + seq!['"'],
{
    assert(s.push(c).drop_last() =~= s);
}

/// A listing of nothing has no lines.
pub proof fn lemma_listings_start_empty(
    es: Seq<Entry>,
    rows: Seq<ProbeEntry>,
    rules: Seq<AppRule>,
    gs: Seq<AppGroup>,
    now: u64,
)
    ensures
        crate::report::rule_rows_json(es, 0).len() == 0,
        crate::report::rule_rows(es, 0).len() == 0,
        crate::report::counts_json(es, 0).len() == 0,
        crate::report::count_rows(es, 0).len() == 0,
        crate::report::probe_rows(rows, 0).len() == 0,
        crate::report::group_rows(rules, now, 0).len() == 0,
        crate::report::group_tables(gs, now, 0).len() == 0,
        crate::report::app_rules_json(rules, now, 0).len() == 0,
        crate::report::groups_json(gs, now, 0).len() == 0,
{
}

} // verus!
