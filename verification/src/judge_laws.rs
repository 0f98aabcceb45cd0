//! What is decided about a flow, an event and an answer, said of what the daemon
//! knows.
use crate::addr::{ip_text, IpAddr};
use crate::daemon::{
    after_answer, after_flow, after_upcall, answer_in, backend_for, change_news, fate_of,
    flow_prompt, judgement, kernel_push, log_text, mode_for, prompt_words, question, question_key,
    reloaded, started, upcall_prompt, upcall_verdict, DaemonView, Fate, PromptView, Upcall,
    CHECK_SPAN, FLUSH_SPAN, LOG_SPAN, MAX_DECIDED, MAX_LOGGED,
};
use crate::layout::signed;
use crate::number::dec;
use crate::pattern::Conn;
use crate::platform::{lossy, lowercase};
use crate::policy::{loaded, named, verdict, PolicyView};
use crate::policy_laws::answered;
use crate::procinfo::{Attribution, Confidence, Tuple};
use crate::text::{split, trim};
use crate::words::{answer_of, Answer, AttributionMode, Mode, Verdict};
use vstd::prelude::*;

verus! {

// ---------------------------------------------------------------------------
// Verdicts.
// ---------------------------------------------------------------------------

/// A flow is judged by the rules alone, with its binary, its address, its port, and
/// the name that its address is known by: unless the binary has an identity on
/// record and hashes to something else now. That one is asked about.
pub proof fn lemma_flows_are_judged_by_the_rules(
    d: DaemonView,
    exe: Option<Seq<char>>,
    hash: Option<Seq<char>>,
    dst: IpAddr,
    dport: u16,
)
    ensures
        ({
            let other = exe is Some && hash is Some && d.pol.app_id.contains_key(exe->0)
                && d.pol.app_id[exe->0] != hash->0;
            let c = Conn {
                exe,
                dst,
                host: if d.names.contains_key(dst) {
                    Some(lowercase(d.names[dst].0))
                } else {
                    None
                },
                dport,
            };
            judgement(d, exe, hash, dst, dport) == (if other {
                Verdict::Ask
            } else {
                verdict(d.pol, c)
            })
        }),
{
}

/// A binary that hashes to what is on record is judged as one without any record
/// is, and as one that could not be hashed is.
pub proof fn lemma_unchanged_binaries_are_judged_alike(
    d: DaemonView,
    exe: Seq<char>,
    hash: Seq<char>,
    dst: IpAddr,
    dport: u16,
)
    requires
        d.pol.app_id.contains_key(exe) ==> d.pol.app_id[exe] == hash,
    ensures
        judgement(d, Some(exe), Some(hash), dst, dport) == judgement(d, Some(exe), None, dst, dport),
        judgement(d, Some(exe), Some(hash), dst, dport) == judgement(
            DaemonView { pol: PolicyView { app_id: Map::empty(), ..d.pol }, ..d },
            Some(exe),
            Some(hash),
            dst,
            dport,
        ),
        judgement(d, Some(exe), Some(hash), dst, dport) == Verdict::Deny <==> verdict(
            d.pol,
            crate::policy::seen_conn(Some(exe), dst, crate::daemon::host_of(d.names, dst), dport),
        ) == Verdict::Deny,
{
    let c = crate::policy::seen_conn(
        Some(exe),
        dst,
        crate::daemon::host_of(d.names, dst),
        dport,
    );
    let bare = PolicyView { app_id: Map::empty(), ..d.pol };
    assert(crate::pattern::any_covers(bare.deny, c) == crate::pattern::any_covers(d.pol.deny, c));
    assert(crate::pattern::any_covers(bare.allow, c) == crate::pattern::any_covers(d.pol.allow, c));
}

/// What is allowed goes through and what is denied is rejected, in every mode; what
/// is asked about is held while enforcing and goes through while observing.
pub proof fn lemma_fates(mode: Mode)
    ensures
        fate_of(mode, Verdict::Allow) == Fate::Forward,
        fate_of(mode, Verdict::Deny) == Fate::Reject,
        fate_of(Mode::Enforcement, Verdict::Ask) == Fate::Hold,
        fate_of(Mode::Visibility, Verdict::Ask) == Fate::Forward,
{
}

/// The kernel is told of a flow exactly if its binary is known, its verdict is
/// settled and the daemon enforces; and it is told what was decided.
pub proof fn lemma_kernel_is_told(d: DaemonView, exe: Option<Seq<char>>, v: Verdict)
    ensures
        kernel_push(d, exe, v) == Some(true) <==> exe is Some && d.mode == Mode::Enforcement && v
            == Verdict::Allow,
        kernel_push(d, exe, v) == Some(false) <==> exe is Some && d.mode == Mode::Enforcement && v
            == Verdict::Deny,
{
}

/// The first time that a binary with an identity on record hashes to something
/// else, the hash on record is reported; after that it is not, and nothing else is.
pub proof fn lemma_changes_are_reported_once(
    d: DaemonView,
    t: Tuple,
    att: Attribution,
    hash: Option<Seq<char>>,
    clock: u64,
)
    ensures
        ({
            let e = att.owner.path@;
            let other = hash is Some && d.pol.app_id.contains_key(e) && d.pol.app_id[e] != hash->0;
            let after = after_flow(d, t, Some(att), hash, clock);
            &&& other && !d.warned.contains(e) ==> change_news(d, Some(e), hash) == Some(
                d.pol.app_id[e],
            )
            &&& !other || d.warned.contains(e) ==> change_news(d, Some(e), hash) is None
            &&& other ==> after.warned == d.warned.insert(e) && change_news(after, Some(e), hash)
                is None
            &&& !other ==> after.warned == d.warned
        }),
{
}

// ---------------------------------------------------------------------------
// What a flow changes.
// ---------------------------------------------------------------------------

/// A settled verdict is remembered for its flow, and one that asks is not; the
/// verdicts on other flows stay unless more than 16384 are remembered.
pub proof fn lemma_settled_verdicts_are_remembered(
    d: DaemonView,
    t: Tuple,
    att: Option<Attribution>,
    hash: Option<Seq<char>>,
    clock: u64,
    u: Tuple,
)
    ensures
        ({
            let exe = match att {
                Some(a) => Some(a.owner.path@),
                None => None,
            };
            let v = judgement(d, exe, hash, t.dst, t.dport);
            let after = after_flow(d, t, att, hash, clock).decided;
            &&& v != Verdict::Ask ==> after.contains_key(t) && after[t] == v
            &&& v == Verdict::Ask ==> after == d.decided
            &&& u != t && d.decided.dom().len() <= 16384 ==> after.contains_key(u)
                == d.decided.contains_key(u)
            &&& u != t && after.contains_key(u) ==> d.decided.contains_key(u) && after[u]
                == d.decided[u]
        }),
{
}

/// A flow that is asked about opens a question while enforcing, and makes the rule
/// of an approval while observing; nothing else does.
pub proof fn lemma_flows_ask_or_teach(
    d: DaemonView,
    t: Tuple,
    att: Option<Attribution>,
    hash: Option<Seq<char>>,
    clock: u64,
)
    ensures
        ({
            let exe = match att {
                Some(a) => Some(a.owner.path@),
                None => None,
            };
            let host = if d.names.contains_key(t.dst) {
                Some(d.names[t.dst].0)
            } else {
                None
            };
            let v = judgement(d, exe, hash, t.dst, t.dport);
            let after = after_flow(d, t, att, hash, clock);
            &&& v == Verdict::Ask && d.mode == Mode::Enforcement ==> after.asking
                == d.asking.insert(question_key(exe, host, t.dst)) && after.pol == d.pol
            &&& v == Verdict::Ask && d.mode == Mode::Visibility ==> after.asking == d.asking
                && after.pol == answered(d.pol, Answer::AllowConn, exe, t.dst, host, t.dport)
            &&& v != Verdict::Ask ==> after.asking == d.asking && after.pol == d.pol
        }),
{
}

/// A flow of a known binary is put down with its time: under the name of its
/// address, in lower case, where there is one, and else under the address.
pub proof fn lemma_flows_are_seen(
    d: DaemonView,
    t: Tuple,
    att: Attribution,
    hash: Option<Seq<char>>,
    clock: u64,
)
    requires
        att.owner.path@.len() > 0,
    ensures
        ({
            let e = att.owner.path@;
            let times = after_flow(d, t, Some(att), hash, clock).seen.times;
            let named = d.names.contains_key(t.dst) && d.names[t.dst].0.len() > 0
                && d.names[t.dst].0 != "-"@;
            let nameless = !d.names.contains_key(t.dst) || d.names[t.dst].0 == "-"@;
            &&& named ==> times.contains_key((e, lowercase(d.names[t.dst].0))) && times[(
                e,
                lowercase(d.names[t.dst].0),
            )] == clock
            &&& nameless ==> times.contains_key((e, lowercase(ip_text(t.dst)))) && times[(
                e,
                lowercase(ip_text(t.dst)),
            )] == clock
            &&& named || nameless ==> after_flow(d, t, Some(att), hash, clock).seen.dirty
        }),
{
    reveal_strlit("-");
    crate::policy_laws::lemma_ip_is_spellable(t.dst);
    assert(ip_text(t.dst) != "-"@) by {
        crate::addr::lemma_ip_chars(ip_text(t.dst));
        if ip_text(t.dst) == "-"@ {
            assert(crate::addr::is_addr_char(ip_text(t.dst)[0]));
        }
    }
}

/// Nothing else is touched by a flow: the mode, the names, the waiting events and
/// the clocks stay.
pub proof fn lemma_flows_leave_the_rest(
    d: DaemonView,
    t: Tuple,
    att: Option<Attribution>,
    hash: Option<Seq<char>>,
    clock: u64,
)
    ensures
        ({
            let after = after_flow(d, t, att, hash, clock);
            &&& after.mode == d.mode
            &&& after.fallback == d.fallback
            &&& after.names == d.names
            &&& after.waiting == d.waiting
            &&& after.upcall_on == d.upcall_on
            &&& after.logged_cleared == d.logged_cleared
            &&& after.last_check == d.last_check
            &&& after.logged == d.logged.insert(t)
            &&& att is None ==> after.seen == d.seen && after.warned == d.warned
        }),
{
}

/// A prompt is raised exactly if a flow is asked about while enforcing and the same
/// question is not open; and it shows the flow, its owner and its name as they are.
pub proof fn lemma_prompts_show_the_flow(
    d: DaemonView,
    t: Tuple,
    att: Option<Attribution>,
    hash: Option<Seq<char>>,
)
    ensures
        ({
            let exe = match att {
                Some(a) => Some(a.owner.path@),
                None => None,
            };
            let host = if d.names.contains_key(t.dst) {
                Some(d.names[t.dst].0)
            } else {
                None
            };
            let v = judgement(d, exe, hash, t.dst, t.dport);
            let p = flow_prompt(d, t, att, hash);
            &&& p is Some <==> v == Verdict::Ask && d.mode == Mode::Enforcement
                && !d.asking.contains(question_key(exe, host, t.dst))
            &&& p is Some ==> {
                &&& p->0.exe == exe
                &&& p->0.dst == t.dst
                &&& p->0.dport == t.dport
                &&& p->0.host == host
                &&& p->0.changed <==> exe is Some && hash is Some && d.pol.app_id.contains_key(
                    exe->0,
                ) && d.pol.app_id[exe->0] != hash->0
                &&& att matches Some(a) ==> p->0.pid == a.owner.pid && p->0.command
                    == a.owner.command@ && p->0.scope == a.confidence.name()
                &&& att is None ==> p->0.pid == 0 && p->0.command.len() == 0 && p->0.scope
                    == "none"@
            }
        }),
{
}

/// A prompt is started with eight words: the binary, the process, the command, the
/// address, the port, the name, whether the binary changed, and how its owner was
/// found. What is not known is said to be unknown, and a name that is not known is
/// a hyphen.
pub proof fn lemma_prompt_words(p: PromptView)
    ensures
        ({
            let w = prompt_words(p);
            &&& w.len() == 8
            &&& w[0] == (if p.exe is Some {
                p.exe->0
            } else {
                "<unknown>"@
            })
            &&& w[1] == signed(p.pid as int)
            &&& w[2] == (if p.command.len() > 0 {
                p.command
            } else {
                "<unknown>"@
            })
            &&& w[3] == ip_text(p.dst)
            &&& w[4] == dec(p.dport as nat)
            &&& w[5] == (if p.host is Some && p.host->0.len() > 0 {
                p.host->0
            } else {
                "-"@
            })
            &&& w[6] == (if p.changed {
                "changed"@
            } else {
                "ok"@
            })
            &&& w[7] == p.scope
        }),
{
}

/// How sure an owner is, in a word.
pub proof fn lemma_confidence_words()
    ensures
        Confidence::Kernel.name() == "kernel"@,
        Confidence::Exact.name() == "exact"@,
        Confidence::Local.name() == "local"@,
        Confidence::Port.name() == "port"@,
{
}

// ---------------------------------------------------------------------------
// Questions.
// ---------------------------------------------------------------------------

/// A name counts if it is neither empty nor a hyphen.
pub proof fn lemma_names_that_count(host: Option<Seq<char>>, dst: IpAddr)
    ensures
        host is None ==> named(host) is None,
        host matches Some(h) ==> named(host) == (if h.len() > 0 && h != "-"@ {
            Some(h)
        } else {
            None
        }),
        question(host, dst) == (if host is Some && host->0.len() > 0 && host->0 != "-"@ {
            lowercase(host->0)
        } else {
            ip_text(dst)
        }),
{
}

/// Questions about different binaries are different, and so are questions about
/// different destinations.
pub proof fn lemma_questions_are_apart(
    e: Seq<char>,
    f: Seq<char>,
    g: Option<Seq<char>>,
    h: Option<Seq<char>>,
    a: IpAddr,
    b: IpAddr,
)
    ensures
        question_key(Some(e), g, a) == question_key(Some(f), h, b) <==> e == f && question(g, a)
            == question(h, b),
        question_key(None, g, a) == (Seq::<char>::empty(), question(g, a)),
{
}

// ---------------------------------------------------------------------------
// Kernel events.
// ---------------------------------------------------------------------------

/// A kernel event is judged as a flow of its binary is. One without a binary is let
/// through.
pub proof fn lemma_events_are_judged(d: DaemonView, ev: Upcall, hash: Option<Seq<char>>)
    ensures
        ev.path@.len() == 0 ==> upcall_verdict(d, ev, hash) == Verdict::Allow && after_upcall(
            d,
            ev,
            hash,
        ) == d,
        ev.path@.len() > 0 ==> upcall_verdict(d, ev, hash) == judgement(
            d,
            Some(ev.path@),
            hash,
            ev.dst,
            ev.dport,
        ),
{
}

/// An event that needs an answer opens its question and waits for it; any other
/// changes neither. Nothing but that and the report of a change is touched.
pub proof fn lemma_events_open_questions(d: DaemonView, ev: Upcall, hash: Option<Seq<char>>)
    requires
        ev.path@.len() > 0,
    ensures
        ({
            let e = ev.path@;
            let host = if d.names.contains_key(ev.dst) {
                Some(d.names[ev.dst].0)
            } else {
                None
            };
            let key = question_key(Some(e), host, ev.dst);
            let asked = upcall_verdict(d, ev, hash) == Verdict::Ask;
            let other = hash is Some && d.pol.app_id.contains_key(e) && d.pol.app_id[e] != hash->0;
            let after = after_upcall(d, ev, hash);
            let waited = if d.waiting.contains_key(key) {
                d.waiting[key]
            } else {
                Seq::empty()
            };
            &&& asked ==> after.asking == d.asking.insert(key) && after.waiting
                == d.waiting.insert(key, waited.push(ev.id))
            &&& !asked ==> after.asking == d.asking && after.waiting == d.waiting
            &&& after.warned == (if other {
                d.warned.insert(e)
            } else {
                d.warned
            })
            &&& after.pol == d.pol
            &&& after.mode == d.mode
            &&& after.names == d.names
            &&& after.seen == d.seen
            &&& after.decided == d.decided
            &&& after.logged == d.logged
            &&& after.upcall_on == d.upcall_on
            &&& upcall_prompt(d, ev, hash) is Some <==> asked && !d.asking.contains(key)
        }),
{
    let host = if d.names.contains_key(ev.dst) {
        Some(d.names[ev.dst].0)
    } else {
        None
    };
    let key = question_key(Some(ev.path@), host, ev.dst);
    if !d.waiting.contains_key(key) {
        assert(Seq::<u64>::empty().push(ev.id) =~= seq![ev.id]);
    }
}

/// The prompt of an event shows the event: its binary, its process, the last part
/// of its path as the command, its address, port and name.
pub proof fn lemma_event_prompts(d: DaemonView, ev: Upcall, hash: Option<Seq<char>>)
    ensures
        upcall_prompt(d, ev, hash) matches Some(p) ==> p.exe == Some(ev.path@) && p.pid == ev.pid
            && p.command == split(ev.path@, '/').last() && p.dst == ev.dst && p.dport == ev.dport
            && p.host == (if d.names.contains_key(ev.dst) {
            Some(d.names[ev.dst].0)
        } else {
            None
        }) && p.scope == "kernel"@ && (p.changed <==> hash is Some && d.pol.app_id.contains_key(
            ev.path@,
        ) && d.pol.app_id[ev.path@] != hash->0),
{
}

// ---------------------------------------------------------------------------
// Answers.
// ---------------------------------------------------------------------------

/// The words that answer a prompt, with white space around them or not.
pub proof fn lemma_answer_words(s: Seq<char>)
    ensures
        answer_of(s) == Some(Answer::AllowConn) <==> trim(s) == "allow-conn"@,
        answer_of(s) == Some(Answer::AllowApp) <==> trim(s) == "allow-app"@,
        answer_of(s) == Some(Answer::Block) <==> trim(s) == "block-conn"@ || trim(s) == "block"@,
        answer_of(s) == Some(Answer::BlockApp) <==> trim(s) == "block-app"@,
        answer_of(s) == Some(Answer::Timeout) <==> trim(s) == "timeout"@,
{
    reveal_strlit("allow-conn");
    reveal_strlit("allow-app");
    reveal_strlit("block-conn");
    reveal_strlit("block");
    reveal_strlit("block-app");
    reveal_strlit("timeout");
    assert("allow-conn"@.len() == 10 && "allow-app"@.len() == 9 && "block-conn"@.len() == 10);
    assert("block"@.len() == 5 && "block-app"@.len() == 9 && "timeout"@.len() == 7);
    assert("allow-conn"@[0] != "block-conn"@[0] && "allow-app"@[0] != "block-app"@[0]);
}

/// A prompt that wrote an answer gave it; one that could not be run, or wrote
/// anything else, gave none.
pub proof fn lemma_prompts_answer(b: Seq<u8>)
    ensures
        answer_in(None) == Answer::Timeout,
        answer_of(lossy(b)) matches Some(a) ==> answer_in(Some(b)) == a,
        answer_of(lossy(b)) is None ==> answer_in(Some(b)) == Answer::Timeout,
{
}

/// An answer makes its rule. If it approves a known binary, what the binary hashes
/// to now takes the place of what was on record, and its change is no longer
/// reported; every other binary keeps its record.
pub proof fn lemma_answers_change_the_policy(
    d: DaemonView,
    ans: Answer,
    exe: Option<Seq<char>>,
    host: Option<Seq<char>>,
    dst: IpAddr,
    dport: u16,
    hash: Option<Seq<char>>,
    f: Seq<char>,
)
    ensures
        ({
            let after = after_answer(d, ans, exe, host, dst, dport, hash);
            let approved = (ans == Answer::AllowConn || ans == Answer::AllowApp) && exe is Some;
            let rules = answered(d.pol, ans, exe, dst, host, dport);
            &&& after.pol.allow == rules.allow
            &&& after.pol.deny == rules.deny
            &&& after.pol.default == d.pol.default
            &&& after.pol.prompt == d.pol.prompt
            &&& after.pol.mode == d.pol.mode
            &&& after.pol.attribution == d.pol.attribution
            &&& !approved ==> after.pol.app_id == d.pol.app_id && after.warned == d.warned
            &&& approved ==> after.warned == d.warned.remove(exe->0)
            &&& approved && hash is Some ==> after.pol.app_id == d.pol.app_id.insert(
                exe->0,
                lowercase(hash->0),
            )
            &&& approved && hash is None ==> after.pol.app_id == d.pol.app_id.remove(exe->0)
            &&& exe != Some(f) ==> (after.pol.app_id.contains_key(f)
                <==> d.pol.app_id.contains_key(f)) && (d.pol.app_id.contains_key(f)
                ==> after.pol.app_id[f] == d.pol.app_id[f])
        }),
{
    if exe is Some && hash is Some {
        assert(d.pol.app_id.remove(exe->0).insert(exe->0, lowercase(hash->0))
            =~= d.pol.app_id.insert(exe->0, lowercase(hash->0)));
    }
}

/// An answer closes its question and releases what waits for it; the mode, the
/// names, the verdicts and the last-seen times stay.
pub proof fn lemma_answers_close_and_leave_the_rest(
    d: DaemonView,
    ans: Answer,
    exe: Option<Seq<char>>,
    host: Option<Seq<char>>,
    dst: IpAddr,
    dport: u16,
    hash: Option<Seq<char>>,
)
    ensures
        ({
            let after = after_answer(d, ans, exe, host, dst, dport, hash);
            let key = question_key(exe, host, dst);
            &&& after.asking == d.asking.remove(key)
            &&& after.waiting == d.waiting.remove(key)
            &&& after.mode == d.mode
            &&& after.fallback == d.fallback
            &&& after.names == d.names
            &&& after.seen == d.seen
            &&& after.decided == d.decided
            &&& after.logged == d.logged
            &&& after.upcall_on == d.upcall_on
        }),
{
}

// ---------------------------------------------------------------------------
// The policy file.
// ---------------------------------------------------------------------------

/// The mode and the backend are what the file says; where it says nothing the
/// daemon runs in the mode it was started with, and scans.
pub proof fn lemma_files_rule(p: PolicyView, fallback: Mode)
    ensures
        p.mode matches Some(m) ==> mode_for(p, fallback) == m,
        p.mode is None ==> mode_for(p, fallback) == fallback,
        p.attribution matches Some(a) ==> backend_for(p) == a,
        p.attribution is None ==> backend_for(p) == AttributionMode::Procstat,
{
}

/// A new version of the file replaces the policy and the mode and settles nothing;
/// the names, the questions and all that waits stay.
pub proof fn lemma_reloads(d: DaemonView, text: Seq<char>)
    ensures
        ({
            let after = reloaded(d, text);
            &&& after.pol == loaded(text)
            &&& loaded(text).mode matches Some(m) ==> after.mode == m
            &&& loaded(text).mode is None ==> after.mode == d.fallback
            &&& after.decided == Map::<Tuple, Verdict>::empty()
            &&& after.fallback == d.fallback
            &&& after.names == d.names
            &&& after.seen == d.seen
            &&& after.asking == d.asking
            &&& after.waiting == d.waiting
            &&& after.warned == d.warned
            &&& after.logged == d.logged
            &&& after.upcall_on == d.upcall_on
        }),
{
}

/// The daemon starts with what its two files say, and with nothing else.
pub proof fn lemma_starts(text: Seq<char>, seen_text: Seq<char>, fallback: Mode, now: u64)
    ensures
        ({
            let d = started(text, seen_text, fallback, now);
            &&& d.pol == loaded(text)
            &&& loaded(text).mode matches Some(m) ==> d.mode == m
            &&& loaded(text).mode is None ==> d.mode == fallback
            &&& d.fallback == fallback
            &&& d.seen.times == crate::seen::times_in(crate::text::lines(seen_text))
            &&& !d.seen.dirty
            &&& d.names.dom() == Set::<IpAddr>::empty()
            &&& d.asking == Set::<(Seq<char>, Seq<char>)>::empty()
            &&& d.waiting.dom() == Set::<(Seq<char>, Seq<char>)>::empty()
            &&& d.decided.dom() == Set::<Tuple>::empty()
            &&& d.warned == Set::<Seq<char>>::empty()
            &&& d.logged == Set::<Tuple>::empty()
            &&& !d.upcall_on
        }),
{
}

/// The file is looked at once a second, the table of times is written every ten,
/// and what was logged is forgotten after two minutes; this many verdicts and
/// logged flows are kept.
pub proof fn lemma_spans()
    ensures
        CHECK_SPAN == 1_000_000_000,
        FLUSH_SPAN == 10 * CHECK_SPAN,
        LOG_SPAN == 120 * CHECK_SPAN,
        MAX_DECIDED == 16384,
        MAX_LOGGED == 8192,
{
}

/// The log line of a flow: what was decided, both ends, the name or a hyphen, and
/// who owns it and how that was found.
pub proof fn lemma_log_lines(
    label: Seq<char>,
    t: Tuple,
    host: Option<Seq<char>>,
    a: Attribution,
)
    ensures
        ({
            let name = if host is Some {
                host->0
            } else {
                "-"@
            };
            let head = crate::layout::left(label, 6) + " "@ + ip_text(t.src) + ":"@ + dec(
                t.sport as nat,
            ) + " -> "@ + ip_text(t.dst) + " ("@ + name + ") :"@ + dec(t.dport as nat) + "  "@;
            &&& log_text(label, t, host, None) == head + "<unattributed>"@
            &&& log_text(label, t, host, Some(a)) == head + (a.owner.command@ + " ["@ + signed(
                a.owner.pid as int,
            ) + "] "@ + a.owner.path@ + " ("@ + a.confidence.name() + ")"@)
        }),
{
    reveal_strlit(" ");
    reveal_strlit(":");
    assert(" "@ =~= seq![' ']);
    assert(":"@ =~= seq![':']);
}

/// The log calls a flow by its verdict, and one that makes a rule a lesson.
pub proof fn lemma_log_labels(d: DaemonView, v: Verdict)
    ensures
        v == Verdict::Ask && d.mode == Mode::Visibility ==> crate::daemon::label_of(d, v)
            == "Learn"@,
        v == Verdict::Ask && d.mode == Mode::Enforcement ==> crate::daemon::label_of(d, v)
            == "Ask"@,
        v == Verdict::Allow ==> crate::daemon::label_of(d, v) == "Allow"@,
        v == Verdict::Deny ==> crate::daemon::label_of(d, v) == "Deny"@,
{
}

/// The two approvals approve, and nothing else does.
pub proof fn lemma_approvals()
    ensures
        crate::daemon::approves(Answer::AllowConn),
        crate::daemon::approves(Answer::AllowApp),
        !crate::daemon::approves(Answer::Block),
        !crate::daemon::approves(Answer::BlockApp),
        !crate::daemon::approves(Answer::Timeout),
{
}

/// A question is about the name that was shown, unless it was empty.
pub proof fn lemma_asked_names(host: Option<Seq<char>>)
    ensures
        host is None ==> crate::daemon::asked_host(host) is None,
        host matches Some(h) ==> crate::daemon::asked_host(host) == (if h.len() > 0 {
            Some(h)
        } else {
            None
        }),
{
}

} // verus!
