//! What the commands print.
use crate::addr::{ip_text, push_ip};
use crate::apps::{base_name, effect_word, AppGroup, AppRule};
use crate::json::{json_option, json_text, push_json, push_json_option};
use crate::layout::{left, push_left, push_left_text, push_right, push_signed, right, signed};
use crate::line::Entry;
use crate::number::{dec, push_dec};
use crate::order::{precedes, text_precedes};
use crate::policy::{opt_string, summary_text, Policy, PolicyView};
use crate::procinfo::ProbeEntry;
use crate::rulefile::{rule_views, Rule};
use crate::seen::{age_text, ago_at};
use crate::text::{
    chars_of, find, find_char, just, lemma_find, push_chars, push_text, same, same_chars, split,
    split_chars, string_of,
};
use crate::words::{Mode, KINDS};
use vstd::prelude::*;

verus! {

// ---------------------------------------------------------------------------
// Rules.
// ---------------------------------------------------------------------------

/// A rule as a JSON object.
pub open spec fn rule_json(e: Entry) -> Seq<char> {
    "{\"kind\":\""@ + json_text(e.key) + "\",\"value\":\""@ + json_text(e.value)
        + "\",\"comment\":"@ + json_option(e.comment) + "}"@
}

/// A separator after every item but the last.
pub open spec fn comma_unless(last: bool) -> Seq<char> {
    if last {
        Seq::empty()
    } else {
        seq![',']
    }
}

/// The first `n` rules as lines of a JSON array.
pub open spec fn rule_rows_json(es: Seq<Entry>, n: int) -> Seq<char>
    decreases n,
{
    if n <= 0 {
        Seq::empty()
    } else {
        rule_rows_json(es, n - 1) + "  "@ + rule_json(es[n - 1]) + comma_unless(n == es.len())
            + seq!['\n']
    }
}

/// The rules as a JSON array.
pub open spec fn rules_json_text(es: Seq<Entry>) -> Seq<char> {
    "[\n"@ + rule_rows_json(es, es.len() as int) + "]\n"@
}

fn push_comma_unless(out: &mut Vec<char>, last: bool)
    ensures
        final(out)@ == old(out)@ + comma_unless(last),
{
    if !last {
        out.push(',');
    }
    assert(out@ =~= old(out)@ + comma_unless(last));
}

fn push_rule_json(out: &mut Vec<char>, r: &Rule)
    ensures
        final(out)@ == old(out)@ + rule_json(r@),
{
    push_text(out, "{\"kind\":\"");
    push_json(out, r.kind.as_str());
    push_text(out, "\",\"value\":\"");
    push_json(out, r.value.as_str());
    push_text(out, "\",\"comment\":");
    push_json_option(out, &r.comment);
    push_text(out, "}");
    assert(out@ =~= old(out)@ + rule_json(r@));
}

/// The rules as a JSON array, one object per line.
pub fn rules_json(rs: &[Rule]) -> (r: String)
    ensures
        r@ == rules_json_text(rule_views(rs@)),
{
    let mut out: Vec<char> = Vec::new();
    push_text(&mut out, "[\n");
    let n: usize = rs.len();
    let ghost es = rule_views(rs@);
    assert(out@ =~= "[\n"@ + rule_rows_json(es, 0));
    for i in 0..n
        invariant
            n == rs@.len(),
            es == rule_views(rs@),
            out@ == "[\n"@ + rule_rows_json(es, i as int),
    {
        let ghost before = out@;
        push_text(&mut out, "  ");
        push_rule_json(&mut out, &rs[i]);
        push_comma_unless(&mut out, i + 1 == n);
        out.push('\n');
        assert(out@ =~= "[\n"@ + rule_rows_json(es, i + 1));
    }
    push_text(&mut out, "]\n");
    assert(out@ =~= rules_json_text(es));
    string_of(&out)
}

/// A rule as a line of a table.
pub open spec fn rule_row(e: Entry) -> Seq<char> {
    match e.comment {
        Some(c) => left(e.key, 11) + " "@ + left(e.value, 44) + " # "@ + c + seq!['\n'],
        None => left(e.key, 11) + " "@ + e.value + seq!['\n'],
    }
}

/// The first `n` rules as lines of a table.
pub open spec fn rule_rows(es: Seq<Entry>, n: int) -> Seq<char>
    decreases n,
{
    if n <= 0 {
        Seq::empty()
    } else {
        rule_rows(es, n - 1) + rule_row(es[n - 1])
    }
}

/// What is printed where there is nothing to list.
pub open spec fn no_rules(path: Seq<char>) -> Seq<char> {
    "no rules in "@ + path + seq!['\n']
}

/// The rules as a table.
pub open spec fn rules_table_text(es: Seq<Entry>, path: Seq<char>) -> Seq<char> {
    if es.len() == 0 {
        no_rules(path)
    } else {
        rule_rows(es, es.len() as int)
    }
}

fn no_rules_line(path: &str) -> (r: String)
    ensures
        r@ == no_rules(path@),
{
    let mut out: Vec<char> = Vec::new();
    push_text(&mut out, "no rules in ");
    push_text(&mut out, path);
    out.push('\n');
    assert(out@ =~= no_rules(path@));
    string_of(&out)
}

/// The rules as a table.
pub fn rules_table(rs: &[Rule], path: &str) -> (r: String)
    ensures
        r@ == rules_table_text(rule_views(rs@), path@),
{
    let n: usize = rs.len();
    if n == 0 {
        return no_rules_line(path);
    }
    let mut out: Vec<char> = Vec::new();
    let ghost es = rule_views(rs@);
    assert(out@ =~= rule_rows(es, 0));
    for i in 0..n
        invariant
            n == rs@.len(),
            es == rule_views(rs@),
            out@ == rule_rows(es, i as int),
    {
        let ghost before = out@;
        let r = &rs[i];
        push_left_text(&mut out, r.kind.as_str(), 11);
        push_text(&mut out, " ");
        match &r.comment {
            Some(c) => {
                push_left_text(&mut out, r.value.as_str(), 44);
                push_text(&mut out, " # ");
                push_text(&mut out, c.as_str());
            },
            None => push_text(&mut out, r.value.as_str()),
        }
        out.push('\n');
        assert(out@ =~= before + rule_row(rs@[i as int]@));
    }
    string_of(&out)
}

// ---------------------------------------------------------------------------
// Status.
// ---------------------------------------------------------------------------

/// How many rules are of one type.
pub open spec fn kind_count(es: Seq<Entry>, kind: Seq<char>) -> nat
    decreases es.len(),
{
    if es.len() == 0 {
        0
    } else {
        kind_count(es.drop_last(), kind) + (if es.last().key == kind {
            1nat
        } else {
            0nat
        })
    }
}

fn count_kind(rs: &[Rule], kind: &str) -> (r: usize)
    ensures
        r == kind_count(rule_views(rs@), kind@),
        r <= rs@.len(),
{
    let n: usize = rs.len();
    let mut count: usize = 0;
    let ghost es = rule_views(rs@);
    assert(es.take(0) =~= Seq::<Entry>::empty());
    for i in 0..n
        invariant
            n == rs@.len(),
            es == rule_views(rs@),
            count <= i,
            count == kind_count(es.take(i as int), kind@),
    {
        proof {
            assert(es.take(i + 1).drop_last() =~= es.take(i as int));
            assert(es.take(i + 1).last() == rs@[i as int]@);
        }
        if same(rs[i].kind.as_str(), kind) {
            count = count + 1;
        }
    }
    assert(es.take(n as int) =~= es);
    count
}

/// The word for whether a daemon runs.
pub open spec fn running_word(running: bool) -> Seq<char> {
    if running {
        "running"@
    } else {
        "stopped"@
    }
}

fn running_text(running: bool) -> (r: &'static str)
    ensures
        r@ == running_word(running),
{
    if running {
        "running"
    } else {
        "stopped"
    }
}

/// The counts of the first `n` rule types as members of a JSON object.
pub open spec fn counts_json(es: Seq<Entry>, n: int) -> Seq<char>
    decreases n,
{
    if n <= 0 {
        Seq::empty()
    } else {
        counts_json(es, n - 1) + comma_unless(n == 1) + "\""@ + KINDS@[n - 1]@ + "\":"@ + dec(
            kind_count(es, KINDS@[n - 1]@),
        )
    }
}

/// The status as a JSON object.
pub open spec fn status_json_text(
    running: bool,
    mode: Mode,
    path: Seq<char>,
    prompt: Seq<char>,
    es: Seq<Entry>,
) -> Seq<char> {
    "{\"daemon\":\""@ + running_word(running) + "\",\"mode\":\""@ + mode.name()
        + "\",\"policy\":\""@ + json_text(path) + "\",\"prompt\":\""@ + json_text(prompt)
        + "\",\"rules\":{"@ + counts_json(es, 10) + "},\"total\":"@ + dec(es.len()) + "}\n"@
}

fn push_counts_json(out: &mut Vec<char>, rs: &[Rule])
    ensures
        final(out)@ == old(out)@ + counts_json(rule_views(rs@), 10),
{
    let ghost start = out@;
    let ghost es = rule_views(rs@);
    assert(start + counts_json(es, 0) =~= start);
    for i in 0..10usize
        invariant
            es == rule_views(rs@),
            out@ == start + counts_json(es, i as int),
    {
        push_comma_unless(out, i == 0);
        push_text(out, "\"");
        push_text(out, KINDS[i]);
        push_text(out, "\":");
        push_dec(out, count_kind(rs, KINDS[i]) as u64);
        assert(out@ =~= start + counts_json(es, i + 1));
    }
}

/// The status as a JSON object on one line.
pub fn status_json(running: bool, mode: Mode, path: &str, prompt: &str, rs: &[Rule]) -> (r: String)
    ensures
        r@ == status_json_text(running, mode, path@, prompt@, rule_views(rs@)),
{
    let mut out: Vec<char> = Vec::new();
    push_text(&mut out, "{\"daemon\":\"");
    push_text(&mut out, running_text(running));
    push_text(&mut out, "\",\"mode\":\"");
    push_text(&mut out, mode.as_str());
    push_text(&mut out, "\",\"policy\":\"");
    push_json(&mut out, path);
    push_text(&mut out, "\",\"prompt\":\"");
    push_json(&mut out, prompt);
    push_text(&mut out, "\",\"rules\":{");
    push_counts_json(&mut out, rs);
    push_text(&mut out, "},\"total\":");
    push_dec(&mut out, rs.len() as u64);
    push_text(&mut out, "}\n");
    assert(out@ =~= status_json_text(running, mode, path@, prompt@, rule_views(rs@)));
    string_of(&out)
}

/// A count in the status table.
pub open spec fn count_row(name: Seq<char>, n: nat) -> Seq<char> {
    "  "@ + left(name, 11) + " "@ + dec(n) + seq!['\n']
}

/// The counts of the first `n` rule types as lines.
pub open spec fn count_rows(es: Seq<Entry>, n: int) -> Seq<char>
    decreases n,
{
    if n <= 0 {
        Seq::empty()
    } else {
        count_rows(es, n - 1) + count_row(KINDS@[n - 1]@, kind_count(es, KINDS@[n - 1]@))
    }
}

/// The status in words.
pub open spec fn status_text(
    running: bool,
    mode: Mode,
    path: Seq<char>,
    prompt: Seq<char>,
    p: PolicyView,
    es: Seq<Entry>,
) -> Seq<char> {
    "daemon:  "@ + running_word(running) + "\nmode:    "@ + mode.name() + "\npolicy:  "@ + path
        + "\nprompt:  "@ + prompt + "\ndefault: "@ + summary_text(p) + "\n"@ + count_rows(es, 10)
        + count_row("total"@, es.len())
}

fn push_count_row(out: &mut Vec<char>, name: &str, n: usize)
    ensures
        final(out)@ == old(out)@ + count_row(name@, n as nat),
{
    push_text(out, "  ");
    push_left_text(out, name, 11);
    push_text(out, " ");
    push_dec(out, n as u64);
    out.push('\n');
    assert(out@ =~= old(out)@ + count_row(name@, n as nat));
}

fn push_count_rows(out: &mut Vec<char>, rs: &[Rule])
    ensures
        final(out)@ == old(out)@ + count_rows(rule_views(rs@), 10),
{
    let ghost start = out@;
    let ghost es = rule_views(rs@);
    assert(start + count_rows(es, 0) =~= start);
    for i in 0..10usize
        invariant
            es == rule_views(rs@),
            out@ == start + count_rows(es, i as int),
    {
        push_count_row(out, KINDS[i], count_kind(rs, KINDS[i]));
        assert(out@ =~= start + count_rows(es, i + 1));
    }
}

/// The status in words. The mode is the one the policy sets, else observing.
pub fn status_table(running: bool, pol: &Policy, path: &str, prompt: &str, rs: &[Rule]) -> (r: String)
    requires
        pol.wf(),
    ensures
        r@ == status_text(
            running,
            match pol@.mode {
                Some(m) => m,
                None => Mode::Visibility,
            },
            path@,
            prompt@,
            pol@,
            rule_views(rs@),
        ),
{
    let mode = pol.mode(Mode::Visibility);
    let mut out: Vec<char> = Vec::new();
    push_text(&mut out, "daemon:  ");
    push_text(&mut out, running_text(running));
    push_text(&mut out, "\nmode:    ");
    push_text(&mut out, mode.as_str());
    push_text(&mut out, "\npolicy:  ");
    push_text(&mut out, path);
    push_text(&mut out, "\nprompt:  ");
    push_text(&mut out, prompt);
    push_text(&mut out, "\ndefault: ");
    push_text(&mut out, pol.summary().as_str());
    push_text(&mut out, "\n");
    push_count_rows(&mut out, rs);
    push_count_row(&mut out, "total", rs.len());
    assert(out@ =~= status_text(running, mode, path@, prompt@, pol@, rule_views(rs@)));
    string_of(&out)
}

// ---------------------------------------------------------------------------
// Sockets.
// ---------------------------------------------------------------------------

/// Does one socket come before another in the report? By command, then by port.
pub open spec fn row_precedes(a: ProbeEntry, b: ProbeEntry) -> bool {
    ||| precedes(a.owner.command@, b.owner.command@)
    ||| a.owner.command@ == b.owner.command@ && a.lport < b.lport
}

/// A report with one more socket put where it belongs, behind its equals.
pub open spec fn placed_row(list: Seq<ProbeEntry>, e: ProbeEntry) -> Seq<ProbeEntry>
    decreases list.len(),
{
    if list.len() > 0 && row_precedes(e, list.last()) {
        placed_row(list.drop_last(), e).push(list.last())
    } else {
        list.push(e)
    }
}

/// Sockets in the order of the report; equals stay in the order they were in.
pub open spec fn arranged_rows(rows: Seq<ProbeEntry>) -> Seq<ProbeEntry>
    decreases rows.len(),
{
    if rows.len() == 0 {
        Seq::empty()
    } else {
        placed_row(arranged_rows(rows.drop_last()), rows.last())
    }
}

/// The far end of a socket. An unconnected one has none: what identifies it is
/// what it is bound to.
pub open spec fn remote_text(e: ProbeEntry) -> Seq<char> {
    match e.peer {
        Some((ip, port)) => ip_text(ip) + seq![':'] + dec(port as nat),
        None => "(unconnected) "@ + ip_text(e.local) + seq![':'] + dec(e.lport as nat),
    }
}

/// One line of the report.
pub open spec fn probe_line(
    command: Seq<char>,
    pid: Seq<char>,
    path: Seq<char>,
    remote: Seq<char>,
    how: Seq<char>,
) -> Seq<char> {
    left(command, 16) + " "@ + right(pid, 7) + "  "@ + left(path, 40) + " "@ + left(remote, 26)
        + " "@ + how + seq!['\n']
}

/// The heading of the report.
pub open spec fn probe_heading() -> Seq<char> {
    probe_line("COMMAND"@, "PID"@, "PATH"@, "REMOTE"@, "HOW"@)
}

/// The line that reports a socket.
pub open spec fn probe_row(e: ProbeEntry) -> Seq<char> {
    probe_line(
        e.owner.command@,
        signed(e.owner.pid as int),
        e.owner.path@,
        remote_text(e),
        e.confidence.name(),
    )
}

/// The first `n` lines of the report.
pub open spec fn probe_rows(rows: Seq<ProbeEntry>, n: int) -> Seq<char>
    decreases n,
{
    if n <= 0 {
        Seq::empty()
    } else {
        probe_rows(rows, n - 1) + probe_row(rows[n - 1])
    }
}

/// The report on sockets.
pub open spec fn probe_text(rows: Seq<ProbeEntry>) -> Seq<char> {
    let list = arranged_rows(rows);
    probe_heading() + probe_rows(list, list.len() as int)
}

fn row_is_before(a: &ProbeEntry, b: &ProbeEntry) -> (r: bool)
    ensures
        r == row_precedes(*a, *b),
{
    let x = chars_of(a.owner.command.as_str());
    let y = chars_of(b.owner.command.as_str());
    text_precedes(&x, &y) || (same_chars(&x, &y) && a.lport < b.lport)
}

proof fn lemma_placed_row_push(list: Seq<ProbeEntry>, k: int, e: ProbeEntry)
    requires
        0 <= k <= list.len(),
        k > 0 ==> !row_precedes(e, list[k - 1]),
        forall|i: int| k <= i < list.len() ==> row_precedes(e, #[trigger] list[i]),
    ensures
        placed_row(list, e) == list.insert(k, e),
    decreases list.len(),
{
    if list.len() == k {
        assert(list.insert(k, e) =~= list.push(e));
        if list.len() > 0 {
            assert(list.last() == list[k - 1]);
        }
    } else {
        let h = list.drop_last();
        assert(row_precedes(e, list[list.len() - 1]));
        assert forall|i: int| k <= i < h.len() implies row_precedes(e, #[trigger] h[i]) by {
            assert(h[i] == list[i]);
        }
        if k > 0 {
            assert(h[k - 1] == list[k - 1]);
        }
        lemma_placed_row_push(h, k, e);
        assert(list.insert(k, e) =~= h.insert(k, e).push(list.last()));
    }
}

fn place_row(list: &mut Vec<ProbeEntry>, e: ProbeEntry)
    ensures
        final(list)@ == placed_row(old(list)@, e),
{
    let ghost before = list@;
    let mut k: usize = list.len();
    while k > 0 && row_is_before(&e, &list[k - 1])
        invariant
            k <= list@.len(),
            list@ == before,
            forall|i: int| k <= i < before.len() ==> row_precedes(e, #[trigger] before[i]),
        decreases k,
    {
        k = k - 1;
    }
    proof {
        lemma_placed_row_push(before, k as int, e);
    }
    list.insert(k, e);
}

fn copy_row(e: &ProbeEntry) -> (r: ProbeEntry)
    ensures
        r == *e,
{
    ProbeEntry {
        proto: e.proto,
        local: e.local,
        lport: e.lport,
        peer: e.peer,
        owner: e.owner.dup(),
        confidence: e.confidence,
    }
}

fn sort_rows(rows: &[ProbeEntry]) -> (r: Vec<ProbeEntry>)
    ensures
        r@ == arranged_rows(rows@),
{
    let mut out: Vec<ProbeEntry> = Vec::new();
    let n: usize = rows.len();
    assert(rows@.take(0) =~= Seq::<ProbeEntry>::empty());
    assert(out@ =~= arranged_rows(rows@.take(0)));
    for i in 0..n
        invariant
            n == rows@.len(),
            out@ == arranged_rows(rows@.take(i as int)),
    {
        place_row(&mut out, copy_row(&rows[i]));
        assert(rows@.take(i + 1).drop_last() =~= rows@.take(i as int));
    }
    assert(rows@.take(n as int) =~= rows@);
    out
}

fn push_probe_line(
    out: &mut Vec<char>,
    command: &str,
    pid: &[char],
    path: &str,
    remote: &[char],
    how: &str,
)
    ensures
        final(out)@ == old(out)@ + probe_line(command@, pid@, path@, remote@, how@),
{
    push_left_text(out, command, 16);
    push_text(out, " ");
    push_right(out, pid, 7);
    push_text(out, "  ");
    push_left_text(out, path, 40);
    push_text(out, " ");
    push_left(out, remote, 26);
    push_text(out, " ");
    push_text(out, how);
    out.push('\n');
    assert(out@ =~= old(out)@ + probe_line(command@, pid@, path@, remote@, how@));
}

fn remote_chars(e: &ProbeEntry) -> (r: Vec<char>)
    ensures
        r@ == remote_text(*e),
{
    let mut out: Vec<char> = Vec::new();
    match e.peer {
        Some((ip, port)) => {
            push_ip(&mut out, &ip);
            out.push(':');
            push_dec(&mut out, port as u64);
        },
        None => {
            push_text(&mut out, "(unconnected) ");
            push_ip(&mut out, &e.local);
            out.push(':');
            push_dec(&mut out, e.lport as u64);
        },
    }
    assert(out@ =~= remote_text(*e));
    out
}

/// The report on sockets.
pub fn probe_report(rows: &[ProbeEntry]) -> (r: String)
    ensures
        r@ == probe_text(rows@),
{
    let list = sort_rows(rows);
    let mut out: Vec<char> = Vec::new();
    push_probe_line(
        &mut out,
        "COMMAND",
        &chars_of("PID"),
        "PATH",
        &chars_of("REMOTE"),
        "HOW",
    );
    let n: usize = list.len();
    assert(out@ =~= probe_heading() + probe_rows(list@, 0));
    for i in 0..n
        invariant
            n == list@.len(),
            out@ == probe_heading() + probe_rows(list@, i as int),
    {
        let e = &list[i];
        let mut pid: Vec<char> = Vec::new();
        push_signed(&mut pid, e.owner.pid);
        assert(pid@ =~= signed(e.owner.pid as int));
        let remote = remote_chars(e);
        push_probe_line(
            &mut out,
            e.owner.command.as_str(),
            &pid,
            e.owner.path.as_str(),
            &remote,
            e.confidence.as_str(),
        );
        assert(out@ =~= probe_heading() + probe_rows(list@, i + 1));
    }
    string_of(&out)
}

// ---------------------------------------------------------------------------
// Applications.
// ---------------------------------------------------------------------------

/// The line above the rules of an application.
pub open spec fn group_heading(g: AppGroup, now: u64) -> Seq<char> {
    (if g.app@.len() == 0 {
        "(any application)"@
    } else {
        g.app@
    }) + "  ["@ + dec(g.allow as nat) + " allow, "@ + dec(g.deny as nat) + " deny]  last: "@
        + age_text(g.last_seen, now) + seq!['\n']
}

/// The line of a rule in its group.
pub open spec fn group_row(a: AppRule, now: u64) -> Seq<char> {
    "    "@ + left(effect_word(a.split.deny), 5) + " "@ + left(a.split.dest@, 40) + " "@ + left(
        age_text(a.last_seen, now),
        10,
    ) + " "@ + a.rule.kind@ + seq!['\n']
}

/// The first `n` lines of a group.
pub open spec fn group_rows(rules: Seq<AppRule>, now: u64, n: int) -> Seq<char>
    decreases n,
{
    if n <= 0 {
        Seq::empty()
    } else {
        group_rows(rules, now, n - 1) + group_row(rules[n - 1], now)
    }
}

/// The first `n` groups.
pub open spec fn group_tables(gs: Seq<AppGroup>, now: u64, n: int) -> Seq<char>
    decreases n,
{
    if n <= 0 {
        Seq::empty()
    } else {
        group_tables(gs, now, n - 1) + group_heading(gs[n - 1], now) + group_rows(
            gs[n - 1].rules@,
            now,
            gs[n - 1].rules@.len() as int,
        )
    }
}

/// The applications as a table.
pub open spec fn apps_table_text(gs: Seq<AppGroup>, path: Seq<char>, now: u64) -> Seq<char> {
    if gs.len() == 0 {
        no_rules(path)
    } else {
        group_tables(gs, now, gs.len() as int)
    }
}

fn push_group_heading(out: &mut Vec<char>, g: &AppGroup, now: u64)
    ensures
        final(out)@ == old(out)@ + group_heading(*g, now),
{
    if g.app.as_str().is_empty() {
        push_text(out, "(any application)");
    } else {
        push_text(out, g.app.as_str());
    }
    push_text(out, "  [");
    push_dec(out, g.allow as u64);
    push_text(out, " allow, ");
    push_dec(out, g.deny as u64);
    push_text(out, " deny]  last: ");
    push_text(out, ago_at(g.last_seen, now).as_str());
    out.push('\n');
    assert(out@ =~= old(out)@ + group_heading(*g, now));
}

fn effect_str(deny: bool) -> (r: &'static str)
    ensures
        r@ == effect_word(deny),
{
    if deny {
        "deny"
    } else {
        "allow"
    }
}

fn push_group_row(out: &mut Vec<char>, a: &AppRule, now: u64)
    ensures
        final(out)@ == old(out)@ + group_row(*a, now),
{
    push_text(out, "    ");
    push_left_text(out, effect_str(a.split.deny), 5);
    push_text(out, " ");
    push_left_text(out, a.split.dest.as_str(), 40);
    push_text(out, " ");
    push_left_text(out, ago_at(a.last_seen, now).as_str(), 10);
    push_text(out, " ");
    push_text(out, a.rule.kind.as_str());
    out.push('\n');
    assert(out@ =~= old(out)@ + group_row(*a, now));
}

fn push_group_rows(out: &mut Vec<char>, rules: &[AppRule], now: u64)
    ensures
        final(out)@ == old(out)@ + group_rows(rules@, now, rules@.len() as int),
{
    let ghost start = out@;
    let n: usize = rules.len();
    assert(start + group_rows(rules@, now, 0) =~= start);
    for i in 0..n
        invariant
            n == rules@.len(),
            out@ == start + group_rows(rules@, now, i as int),
    {
        push_group_row(out, &rules[i], now);
        assert(out@ =~= start + group_rows(rules@, now, i + 1));
    }
}

/// The applications and their rules as a table. `now` is in seconds since the
/// epoch.
pub fn apps_table(gs: &[AppGroup], path: &str, now: u64) -> (r: String)
    ensures
        r@ == apps_table_text(gs@, path@, now),
{
    let n: usize = gs.len();
    if n == 0 {
        return no_rules_line(path);
    }
    let mut out: Vec<char> = Vec::new();
    assert(out@ =~= group_tables(gs@, now, 0));
    for i in 0..n
        invariant
            n == gs@.len(),
            out@ == group_tables(gs@, now, i as int),
    {
        push_group_heading(&mut out, &gs[i], now);
        push_group_rows(&mut out, gs[i].rules.as_slice(), now);
        assert(out@ =~= group_tables(gs@, now, i + 1));
    }
    string_of(&out)
}

/// The directory of a binary, with the slash that ends it.
pub open spec fn dir_of(path: Seq<char>) -> Seq<char> {
    path.take(path.len() - base_name(path).len())
}

/// A directory short enough for a column, keeping its end: the deepest directory
/// is what identifies a program. Cut at a separator, where there is one left.
pub open spec fn shortened(dir: Seq<char>, max: nat) -> Seq<char> {
    if dir.len() <= max {
        dir
    } else {
        let keep = if max == 0 {
            0
        } else {
            max - 1
        };
        let tail = dir.skip(dir.len() - keep);
        let i = find(tail, just('/'));
        seq!['\u{2026}'] + (if i < tail.len() {
            tail.skip(i)
        } else {
            tail
        })
    }
}

fn short_chars(dir: &[char], max: usize) -> (r: Vec<char>)
    ensures
        r@ == shortened(dir@, max as nat),
{
    let n: usize = dir.len();
    let mut out: Vec<char> = Vec::new();
    if n <= max {
        push_chars(&mut out, dir);
        assert(out@ =~= dir@);
        return out;
    }
    let keep: usize = if max == 0 {
        0
    } else {
        max - 1
    };
    let tail = &dir[n - keep..n];
    assert(tail@ =~= dir@.skip(n - keep));
    proof {
        lemma_find(tail@, just('/'));
    }
    let i = find_char(tail, '/');
    out.push('\u{2026}');
    if i < tail.len() {
        let rest = &tail[i..tail.len()];
        assert(rest@ =~= tail@.skip(i as int));
        push_chars(&mut out, rest);
    } else {
        push_chars(&mut out, tail);
    }
    assert(out@ =~= shortened(dir@, max as nat));
    out
}

/// Shorten a directory for display, keeping the end rather than the start.
pub fn short_dir(dir: &str, max: usize) -> (r: String)
    ensures
        r@ == shortened(dir@, max as nat),
{
    string_of(&short_chars(&chars_of(dir), max))
}

/// A shortened directory fits its column.
pub proof fn lemma_short_dir_fits(dir: Seq<char>, max: nat)
    requires
        max > 0,
    ensures
        shortened(dir, max).len() <= max,
{
    if dir.len() > max {
        let tail = dir.skip(dir.len() - (max - 1));
        lemma_find(tail, just('/'));
    }
}

/// A time as a JSON value.
pub open spec fn json_time(t: Option<u64>) -> Seq<char> {
    match t {
        Some(x) => dec(x as nat),
        None => "null"@,
    }
}

fn push_json_time(out: &mut Vec<char>, t: Option<u64>)
    ensures
        final(out)@ == old(out)@ + json_time(t),
{
    match t {
        Some(x) => push_dec(out, x),
        None => push_text(out, "null"),
    }
}

/// A member of an application's JSON object that holds a text.
#[verifier::opaque]
pub open spec fn member(name: Seq<char>, value: Seq<char>) -> Seq<char> {
    "    \""@ + name + "\":\""@ + json_text(value) + "\",\n"@
}

fn push_member(out: &mut Vec<char>, name: &str, value: &[char])
    ensures
        final(out)@ == old(out)@ + member(name@, value@),
{
    push_text(out, "    \"");
    push_text(out, name);
    push_text(out, "\":\"");
    push_json(out, string_of(value).as_str());
    push_text(out, "\",\n");
    proof {
        reveal(member);
    }
    assert(out@ =~= old(out)@ + member(name@, value@));
}

/// How old something is, as members of a JSON object.
#[verifier::opaque]
pub open spec fn age_members(t: Option<u64>, now: u64) -> Seq<char> {
    "\"last_seen\":"@ + json_time(t) + ",\"last_seen_ago\":\""@ + json_text(age_text(t, now))
        + "\","@
}

fn push_age_members(out: &mut Vec<char>, t: Option<u64>, now: u64)
    ensures
        final(out)@ == old(out)@ + age_members(t, now),
{
    push_text(out, "\"last_seen\":");
    push_json_time(out, t);
    push_text(out, ",\"last_seen_ago\":\"");
    push_json(out, ago_at(t, now).as_str());
    push_text(out, "\",");
    proof {
        reveal(age_members);
    }
    assert(out@ =~= old(out)@ + age_members(t, now));
}

/// The first members of a rule's JSON object: what the rule says.
#[verifier::opaque]
pub open spec fn rule_members(a: AppRule) -> Seq<char> {
    "{\"kind\":\""@ + json_text(a.rule.kind@) + "\",\"value\":\""@ + json_text(a.rule.value@)
        + "\",\"dest\":\""@ + json_text(a.split.dest@) + "\",\"effect\":\""@ + effect_word(
        a.split.deny,
    ) + "\","@
}

fn push_rule_members(out: &mut Vec<char>, a: &AppRule)
    ensures
        final(out)@ == old(out)@ + rule_members(*a),
{
    push_text(out, "{\"kind\":\"");
    push_json(out, a.rule.kind.as_str());
    push_text(out, "\",\"value\":\"");
    push_json(out, a.rule.value.as_str());
    push_text(out, "\",\"dest\":\"");
    push_json(out, a.split.dest.as_str());
    push_text(out, "\",\"effect\":\"");
    push_text(out, effect_str(a.split.deny));
    push_text(out, "\",");
    proof {
        reveal(rule_members);
    }
    assert(out@ =~= old(out)@ + rule_members(*a));
}

/// A rule of an application as a JSON object.
#[verifier::opaque]
pub open spec fn app_rule_json(a: AppRule, now: u64) -> Seq<char> {
    rule_members(a) + age_members(a.last_seen, now) + "\"comment\":"@ + json_option(
        opt_string(a.rule.comment),
    ) + "}"@
}

fn push_app_rule_json(out: &mut Vec<char>, a: &AppRule, now: u64)
    ensures
        final(out)@ == old(out)@ + app_rule_json(*a, now),
{
    push_rule_members(out, a);
    push_age_members(out, a.last_seen, now);
    push_text(out, "\"comment\":");
    push_json_option(out, &a.rule.comment);
    push_text(out, "}");
    proof {
        reveal(app_rule_json);
    }
    assert(out@ =~= old(out)@ + app_rule_json(*a, now));
}

/// The first `n` rules of an application as lines of a JSON array.
pub open spec fn app_rules_json(rules: Seq<AppRule>, now: u64, n: int) -> Seq<char>
    decreases n,
{
    if n <= 0 {
        Seq::empty()
    } else {
        app_rules_json(rules, now, n - 1) + "      "@ + app_rule_json(rules[n - 1], now)
            + comma_unless(n == rules.len()) + seq!['\n']
    }
}

fn push_app_rules_json(out: &mut Vec<char>, rules: &[AppRule], now: u64)
    ensures
        final(out)@ == old(out)@ + app_rules_json(rules@, now, rules@.len() as int),
{
    let ghost start = out@;
    let n: usize = rules.len();
    assert(start + app_rules_json(rules@, now, 0) =~= start);
    for i in 0..n
        invariant
            n == rules@.len(),
            out@ == start + app_rules_json(rules@, now, i as int),
    {
        push_text(out, "      ");
        push_app_rule_json(out, &rules[i], now);
        push_comma_unless(out, i + 1 == n);
        out.push('\n');
        assert(out@ =~= start + app_rules_json(rules@, now, i + 1));
    }
}

/// The directory that is shown for an application.
pub open spec fn shown_dir(app: Seq<char>) -> Seq<char> {
    if app.len() == 0 {
        Seq::empty()
    } else {
        dir_of(app)
    }
}

/// The name that is shown for an application.
pub open spec fn shown_name(app: Seq<char>) -> Seq<char> {
    if app.len() == 0 {
        "any application"@
    } else {
        base_name(app)
    }
}

/// The members that identify an application. The directory is kept apart from
/// the name: two binaries of one name in two directories are two programs.
#[verifier::opaque]
pub open spec fn identity_members(app: Seq<char>) -> Seq<char> {
    member("app"@, app) + member("dir"@, shown_dir(app)) + member(
        "dir_short"@,
        shortened(shown_dir(app), 15),
    ) + member("name"@, shown_name(app))
}

/// The counts of an application's rules.
#[verifier::opaque]
pub open spec fn count_members(g: AppGroup) -> Seq<char> {
    "    \"allow\":"@ + dec(g.allow as nat) + ",\"deny\":"@ + dec(g.deny as nat) + ",\"total\":"@
        + dec(g.rules@.len()) + ",\n"@
}

/// An application as a JSON object.
#[verifier::opaque]
pub open spec fn group_json(g: AppGroup, now: u64) -> Seq<char> {
    "  {\n"@ + identity_members(g.app@) + count_members(g) + "    "@ + age_members(
        g.last_seen,
        now,
    ) + "\n    \"rules\":[\n"@ + app_rules_json(g.rules@, now, g.rules@.len() as int)
        + "    ]\n  }"@
}

/// The first `n` applications as lines of a JSON array.
pub open spec fn groups_json(gs: Seq<AppGroup>, now: u64, n: int) -> Seq<char>
    decreases n,
{
    if n <= 0 {
        Seq::empty()
    } else {
        groups_json(gs, now, n - 1) + group_json(gs[n - 1], now) + comma_unless(n == gs.len())
            + seq!['\n']
    }
}

/// The applications as a JSON object.
pub open spec fn apps_json_text(gs: Seq<AppGroup>, now: u64) -> Seq<char> {
    "{\"apps\":[\n"@ + groups_json(gs, now, gs.len() as int) + "]}\n"@
}

fn push_identity_members(out: &mut Vec<char>, app: &str)
    ensures
        final(out)@ == old(out)@ + identity_members(app@),
{
    let c = chars_of(app);
    let mut dir: Vec<char> = Vec::new();
    let mut name: Vec<char> = Vec::new();
    if c.len() == 0 {
        push_text(&mut name, "any application");
        assert(name@ =~= "any application"@);
        assert(dir@ =~= Seq::<char>::empty());
    } else {
        let parts = split_chars(&c, '/');
        let n: usize = parts.len();
        assert(split(c@, '/').len() > 0);
        push_chars(&mut name, &parts[n - 1]);
        proof {
            assert(name@ =~= base_name(c@));
            lemma_base_fits(c@);
        }
        let k: usize = c.len() - name.len();
        let front = &c.as_slice()[0..k];
        assert(front@ =~= dir_of(c@));
        push_chars(&mut dir, front);
        assert(dir@ =~= dir_of(c@));
    }
    push_member(out, "app", &c);
    push_member(out, "dir", &dir);
    push_member(out, "dir_short", &short_chars(&dir, 15));
    push_member(out, "name", &name);
    proof {
        reveal(identity_members);
    }
    assert(out@ =~= old(out)@ + identity_members(app@));
}

/// The name of a binary is the end of its path.
pub proof fn lemma_base_fits(path: Seq<char>)
    ensures
        base_name(path).len() <= path.len(),
        dir_of(path) + base_name(path) == path,
    decreases path.len(),
{
    let i = find(path, just('/'));
    lemma_find(path, just('/'));
    if i < path.len() {
        lemma_base_fits(path.skip(i + 1));
        let rest = path.skip(i + 1);
        assert(split(path, '/') =~= seq![path.take(i)] + split(rest, '/'));
        assert(split(rest, '/').len() > 0);
        assert(base_name(path) == base_name(rest));
        assert(path =~= path.take(i + 1) + rest);
        assert(dir_of(path) =~= path.take(i + 1) + dir_of(rest));
    } else {
        assert(split(path, '/') =~= seq![path]);
        assert(dir_of(path) + base_name(path) =~= path);
    }
}

fn push_group_json(out: &mut Vec<char>, g: &AppGroup, now: u64)
    ensures
        final(out)@ == old(out)@ + group_json(*g, now),
{
    push_text(out, "  {\n");
    push_identity_members(out, g.app.as_str());
    let ghost mid = out@;
    push_text(out, "    \"allow\":");
    push_dec(out, g.allow as u64);
    push_text(out, ",\"deny\":");
    push_dec(out, g.deny as u64);
    push_text(out, ",\"total\":");
    push_dec(out, g.rules.len() as u64);
    push_text(out, ",\n");
    proof {
        reveal(count_members);
    }
    assert(out@ =~= mid + count_members(*g));
    push_text(out, "    ");
    push_age_members(out, g.last_seen, now);
    push_text(out, "\n    \"rules\":[\n");
    push_app_rules_json(out, g.rules.as_slice(), now);
    push_text(out, "    ]\n  }");
    proof {
        reveal(group_json);
    }
    assert(out@ =~= old(out)@ + group_json(*g, now));
}

/// The applications and their rules as a JSON object. `now` is in seconds since
/// the epoch.
pub fn apps_json(gs: &[AppGroup], now: u64) -> (r: String)
    ensures
        r@ == apps_json_text(gs@, now),
{
    let mut out: Vec<char> = Vec::new();
    push_text(&mut out, "{\"apps\":[\n");
    let n: usize = gs.len();
    assert(out@ =~= "{\"apps\":[\n"@ + groups_json(gs@, now, 0));
    for i in 0..n
        invariant
            n == gs@.len(),
            out@ == "{\"apps\":[\n"@ + groups_json(gs@, now, i as int),
    {
        push_group_json(&mut out, &gs[i], now);
        push_comma_unless(&mut out, i + 1 == n);
        out.push('\n');
        assert(out@ =~= "{\"apps\":[\n"@ + groups_json(gs@, now, i + 1));
    }
    push_text(&mut out, "]}\n");
    assert(out@ =~= apps_json_text(gs@, now));
    string_of(&out)
}

} // verus!
