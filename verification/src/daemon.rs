//! The decisions of the daemon.
//!
//! Packets are never buffered: one that waits for an answer is dropped, and its
//! retransmission carries the connection until the user has decided. This module
//! says what becomes of each packet, when to ask, what to remember and what to
//! write down; receiving, sending, asking and writing are done around it.
use crate::addr::{ip_text, push_ip, IpAddr};
use crate::divert::{flow_of, parse, payload_at, payload_offset, rst_of, tcp_rst, Flow};
use crate::dns::{observed, DnsCache, Names};
use crate::layout::{left, push_left_text, push_signed, signed};
use crate::number::{dec, push_dec};
use crate::pattern::opt_text;
use crate::identity::opt_bytes;
use crate::platform::{lossy, lowercase, to_lower, to_text_lossy};
use crate::policy::{
    applied, identity_line, loaded, named, opt_string, recorded_line, seen_conn, verdict,
    DirectiveView, Policy, PolicyView,
};
use crate::policy_laws::answered;
use crate::procinfo::{Attribution, Tuple};
use crate::seen::{elapsed, noted, times_in, Seen, SeenView};
use crate::table::{Keyed, Pool, Table};
use crate::text::{chars_of, lines, push_text, same, split, split_chars, string_of, word_is};
use crate::words::{answer_of, Answer, AttributionMode, Mode, Origin, Verdict};
use vstd::prelude::*;

verus! {

// ---------------------------------------------------------------------------
// Questions.
// ---------------------------------------------------------------------------

/// What counts as the same question: the name when there is one, because the
/// answer covers every address behind it, else the address.
pub open spec fn question(host: Option<Seq<char>>, dst: IpAddr) -> Seq<char> {
    match named(host) {
        Some(h) => lowercase(h),
        None => ip_text(dst),
    }
}

/// What counts as the same question for prompt de-duplication.
pub fn ask_key(host: Option<&str>, dst: &IpAddr) -> (r: String)
    ensures
        r@ == question(opt_text(host), *dst),
{
    if let Some(h) = host {
        let c = chars_of(h);
        if c.len() > 0 && !word_is(&c, "-") {
            return to_lower(h);
        }
    }
    dst.to_text()
}

/// A question together with the binary it is about.
pub open spec fn question_key(
    exe: Option<Seq<char>>,
    host: Option<Seq<char>>,
    dst: IpAddr,
) -> (Seq<char>, Seq<char>) {
    (
        match exe {
            Some(e) => e,
            None => Seq::empty(),
        },
        question(host, dst),
    )
}

fn question_pair(exe: Option<&str>, host: Option<&str>, dst: &IpAddr) -> (r: (String, String))
    ensures
        r.key() == question_key(opt_text(exe), opt_text(host), *dst),
{
    let e = match exe {
        Some(e) => e.to_owned(),
        None => {
            let none = String::new();
            assert(none@ =~= Seq::<char>::empty());
            none
        },
    };
    (e, ask_key(host, dst))
}

/// A prompt to raise.
#[derive(Debug)]
pub struct Prompt {
    pub exe: Option<String>,
    pub pid: i32,
    pub command: String,
    pub dst: IpAddr,
    pub dport: u16,
    pub host: Option<String>,
    /// The binary is not the one that was approved.
    pub changed: bool,
    /// How the owner was found.
    pub scope: String,
}

/// A prompt as a value.
pub ghost struct PromptView {
    pub exe: Option<Seq<char>>,
    pub pid: i32,
    pub command: Seq<char>,
    pub dst: IpAddr,
    pub dport: u16,
    pub host: Option<Seq<char>>,
    pub changed: bool,
    pub scope: Seq<char>,
}

impl View for Prompt {
    type V = PromptView;

    open spec fn view(&self) -> PromptView {
        PromptView {
            exe: opt_string(self.exe),
            pid: self.pid,
            command: self.command@,
            dst: self.dst,
            dport: self.dport,
            host: opt_string(self.host),
            changed: self.changed,
            scope: self.scope@,
        }
    }
}

/// An optional prompt as a value.
pub open spec fn opt_prompt(p: Option<Prompt>) -> Option<PromptView> {
    match p {
        Some(x) => Some(x@),
        None => None,
    }
}

/// The words a prompt is started with: the binary, its process, its command, the
/// address, the port, the name, whether the binary changed, and how the owner was
/// found.
pub open spec fn prompt_words(p: PromptView) -> Seq<Seq<char>> {
    seq![
        match p.exe {
            Some(e) => e,
            None => "<unknown>"@,
        },
        signed(p.pid as int),
        if p.command.len() == 0 {
            "<unknown>"@
        } else {
            p.command
        },
        ip_text(p.dst),
        dec(p.dport as nat),
        match p.host {
            Some(h) => if h.len() == 0 {
                "-"@
            } else {
                h
            },
            None => "-"@,
        },
        if p.changed {
            "changed"@
        } else {
            "ok"@
        },
        p.scope,
    ]
}

/// Strings as texts.
pub open spec fn string_views(v: Seq<String>) -> Seq<Seq<char>> {
    Seq::new(v.len(), |i: int| v[i]@)
}

/// The arguments a prompt is started with.
pub fn prompt_args(p: &Prompt) -> (r: Vec<String>)
    ensures
        string_views(r@) == prompt_words(p@),
{
    let exe = match &p.exe {
        Some(e) => e.clone(),
        None => "<unknown>".to_owned(),
    };
    let mut pid: Vec<char> = Vec::new();
    push_signed(&mut pid, p.pid);
    assert(pid@ =~= signed(p.pid as int));
    let command = if p.command.as_str().is_empty() {
        "<unknown>".to_owned()
    } else {
        p.command.clone()
    };
    let mut port: Vec<char> = Vec::new();
    push_dec(&mut port, p.dport as u64);
    assert(port@ =~= dec(p.dport as nat));
    let host = match &p.host {
        Some(h) => if h.as_str().is_empty() {
            "-".to_owned()
        } else {
            h.clone()
        },
        None => "-".to_owned(),
    };
    let mut out: Vec<String> = Vec::new();
    out.push(exe);
    out.push(string_of(&pid));
    out.push(command);
    out.push(p.dst.to_text());
    out.push(string_of(&port));
    out.push(host);
    out.push(
        if p.changed {
            "changed".to_owned()
        } else {
            "ok".to_owned()
        },
    );
    out.push(p.scope.clone());
    assert(string_views(out@) =~= prompt_words(p@));
    out
}

// ---------------------------------------------------------------------------
// State.
// ---------------------------------------------------------------------------

/// How many settled verdicts are remembered before the memory starts over.
pub const MAX_DECIDED: usize = 16384;

/// How many flows are remembered as logged.
pub const MAX_LOGGED: usize = 8192;

/// How often the logged flows are forgotten, in nanoseconds.
pub const LOG_SPAN: u64 = 120_000_000_000;

/// How often the policy file is looked at, in nanoseconds.
pub const CHECK_SPAN: u64 = 1_000_000_000;

/// How often the last-seen table is written, in nanoseconds.
pub const FLUSH_SPAN: u64 = 10_000_000_000;

/// Everything the daemon remembers.
pub struct Daemon {
    pub pol: Policy,
    pub mode: Mode,
    /// The mode to run in when the policy file names none.
    pub fallback: Mode,
    pub names: DnsCache,
    pub seen: Seen,
    /// Questions that are being asked.
    pub asking: Pool<(String, String)>,
    /// Kernel events that wait for the answer to a question.
    pub waiting: Table<(String, String), Vec<u64>>,
    /// Does the kernel hook ask about misses?
    pub upcall_on: bool,
    /// Binaries reported as changed.
    pub warned: Pool<String>,
    /// Settled verdicts by flow.
    pub decided: Table<Tuple, Verdict>,
    /// Flows written to the log.
    pub logged: Pool<Tuple>,
    /// When the logged flows were last forgotten.
    pub logged_cleared: u64,
    /// When the policy file was last looked at.
    pub last_check: u64,
}

/// The daemon's memory as a value.
#[verifier::ext_equal]
pub ghost struct DaemonView {
    pub pol: PolicyView,
    pub mode: Mode,
    pub fallback: Mode,
    pub names: Names,
    pub seen: SeenView,
    pub asking: Set<(Seq<char>, Seq<char>)>,
    pub waiting: Map<(Seq<char>, Seq<char>), Seq<u64>>,
    pub upcall_on: bool,
    pub warned: Set<Seq<char>>,
    pub decided: Map<Tuple, Verdict>,
    pub logged: Set<Tuple>,
    pub logged_cleared: u64,
    pub last_check: u64,
}

/// Waiting events as sequences.
pub open spec fn event_lists(m: Map<(Seq<char>, Seq<char>), Vec<u64>>) -> Map<
    (Seq<char>, Seq<char>),
    Seq<u64>,
> {
    m.map_values(|v: Vec<u64>| v@)
}

impl View for Daemon {
    type V = DaemonView;

    open spec fn view(&self) -> DaemonView {
        DaemonView {
            pol: self.pol@,
            mode: self.mode,
            fallback: self.fallback,
            names: self.names@,
            seen: self.seen@,
            asking: self.asking@.dom(),
            waiting: event_lists(self.waiting@),
            upcall_on: self.upcall_on,
            warned: self.warned@.dom(),
            decided: self.decided@,
            logged: self.logged@.dom(),
            logged_cleared: self.logged_cleared,
            last_check: self.last_check,
        }
    }
}

/// Only what is settled is remembered. A question never is, since its answer is
/// what is about to change.
pub open spec fn only_settled(decided: Map<Tuple, Verdict>) -> bool {
    forall|t: Tuple| #[trigger] decided.contains_key(t) ==> decided[t] != Verdict::Ask
}

/// The mode a policy asks for.
pub open spec fn mode_for(p: PolicyView, fallback: Mode) -> Mode {
    match p.mode {
        Some(m) => m,
        None => fallback,
    }
}

/// The daemon at its start.
pub open spec fn started(text: Seq<char>, seen_text: Seq<char>, fallback: Mode, now: u64) -> DaemonView {
    DaemonView {
        pol: loaded(text),
        mode: mode_for(loaded(text), fallback),
        fallback,
        names: Map::empty(),
        seen: SeenView { times: times_in(lines(seen_text)), dirty: false, last_flush: None },
        asking: Set::empty(),
        waiting: Map::empty(),
        upcall_on: false,
        warned: Set::empty(),
        decided: Map::empty(),
        logged: Set::empty(),
        logged_cleared: now,
        last_check: now,
    }
}

// ---------------------------------------------------------------------------
// Packets.
// ---------------------------------------------------------------------------

/// What is to become of a packet.
#[derive(Debug, Clone, Copy, PartialEq, Eq, Structural)]
pub enum Fate {
    Forward,
    /// Denied for good: tell the application so.
    Reject,
    /// Not decided yet: drop it, and let the retransmission come.
    Hold,
}

/// The first look at a packet: its fate, or the flow to attribute.
#[derive(Debug, Clone, Copy, PartialEq, Eq, Structural)]
pub enum Step {
    Done(Fate),
    Attribute(Tuple),
}

/// What is done with a packet.
#[derive(Debug)]
pub enum Action {
    Forward,
    Drop,
    /// Drop it, and hand this reset to the local stack.
    Reset(Vec<u8>),
}

/// An action as a value.
pub ghost enum ActionView {
    Forward,
    Drop,
    Reset(Seq<u8>),
}

impl View for Action {
    type V = ActionView;

    open spec fn view(&self) -> ActionView {
        match *self {
            Action::Forward => ActionView::Forward,
            Action::Drop => ActionView::Drop,
            Action::Reset(b) => ActionView::Reset(b@),
        }
    }
}

/// The flow of a packet.
pub open spec fn tuple_of(f: Flow) -> Tuple {
    Tuple { proto: f.proto, src: f.src, sport: f.sport, dst: f.dst, dport: f.dport }
}

/// Is this a reply of a name server?
pub open spec fn is_dns_reply(f: Flow) -> bool {
    f.proto == 17 && f.sport == 53
}

/// Does this packet try to open a connection? A SYN does, and so does any UDP
/// packet; the rest of a TCP connection was decided with its SYN.
pub open spec fn is_attempt(f: Flow) -> bool {
    f.syn_only || f.proto == 17
}

/// The first look at a packet. What cannot be parsed, name server replies,
/// inbound packets and packets of open connections go through; a settled verdict
/// is applied; anything else has to be attributed.
pub open spec fn first_look(d: DaemonView, pkt: Seq<u8>, inbound: bool) -> Step {
    match flow_of(pkt) {
        None => Step::Done(Fate::Forward),
        Some(f) => if is_dns_reply(f) || inbound || !is_attempt(f) {
            Step::Done(Fate::Forward)
        } else if d.decided.contains_key(tuple_of(f)) {
            if d.decided[tuple_of(f)] == Verdict::Deny {
                Step::Done(Fate::Reject)
            } else {
                Step::Done(Fate::Forward)
            }
        } else {
            Step::Attribute(tuple_of(f))
        },
    }
}

/// The payload of a name server reply.
pub open spec fn dns_payload(pkt: Seq<u8>) -> Option<Seq<u8>> {
    match flow_of(pkt) {
        Some(f) => if is_dns_reply(f) && payload_at(pkt) is Some && payload_at(pkt)->0 < pkt.len() {
            Some(pkt.skip(payload_at(pkt)->0))
        } else {
            None
        },
        None => None,
    }
}

/// The daemon once it has looked at a packet: name server replies have taught it
/// their names.
pub open spec fn looked(d: DaemonView, pkt: Seq<u8>, now: u64) -> DaemonView {
    match dns_payload(pkt) {
        Some(p) => DaemonView { names: observed(d.names, p, now), ..d },
        None => d,
    }
}

/// What is done with a packet of a given fate. Only enforcement drops anything.
pub open spec fn disposal(mode: Mode, fate: Fate, pkt: Seq<u8>) -> ActionView {
    if mode == Mode::Visibility || fate == Fate::Forward {
        ActionView::Forward
    } else if fate == Fate::Reject && rst_of(pkt) is Some {
        ActionView::Reset(rst_of(pkt)->0)
    } else {
        ActionView::Drop
    }
}

/// What to do with a packet.
pub fn dispose(mode: Mode, fate: Fate, pkt: &[u8]) -> (r: Action)
    ensures
        r@ == disposal(mode, fate, pkt@),
{
    if !mode.enforcing() {
        return Action::Forward;
    }
    match fate {
        Fate::Forward => Action::Forward,
        Fate::Hold => Action::Drop,
        Fate::Reject => match tcp_rst(pkt) {
            Some(b) => Action::Reset(b),
            None => Action::Drop,
        },
    }
}

// ---------------------------------------------------------------------------
// Flows.
// ---------------------------------------------------------------------------

/// The name an address is known by.
pub open spec fn host_of(names: Names, dst: IpAddr) -> Option<Seq<char>> {
    if names.contains_key(dst) {
        Some(names[dst].0)
    } else {
        None
    }
}

/// The binary in an attribution.
pub open spec fn exe_of(att: Option<Attribution>) -> Option<Seq<char>> {
    match att {
        Some(a) => Some(a.owner.path@),
        None => None,
    }
}

/// How an owner was found, in a word.
pub open spec fn scope_word(att: Option<Attribution>) -> Seq<char> {
    match att {
        Some(a) => a.confidence.name(),
        None => "none"@,
    }
}

/// Is the binary another one than was approved? One that cannot be hashed is
/// not evidence of a change.
pub open spec fn is_changed(p: PolicyView, exe: Option<Seq<char>>, hash: Option<Seq<char>>) -> bool {
    match (exe, hash) {
        (Some(e), Some(h)) => p.app_id.contains_key(e) && p.app_id[e] != h,
        _ => false,
    }
}

/// The verdict on a flow. The rules of a binary that was replaced do not apply to
/// what is there now.
pub open spec fn judgement(
    d: DaemonView,
    exe: Option<Seq<char>>,
    hash: Option<Seq<char>>,
    dst: IpAddr,
    dport: u16,
) -> Verdict {
    if is_changed(d.pol, exe, hash) {
        Verdict::Ask
    } else {
        verdict(d.pol, seen_conn(exe, dst, host_of(d.names, dst), dport))
    }
}

/// What becomes of the packet that showed a flow.
pub open spec fn fate_of(mode: Mode, v: Verdict) -> Fate {
    match v {
        Verdict::Allow => Fate::Forward,
        Verdict::Deny => Fate::Reject,
        Verdict::Ask => if mode == Mode::Enforcement {
            Fate::Hold
        } else {
            Fate::Forward
        },
    }
}

/// Does the daemon have to put a question to the user?
pub open spec fn asks(d: DaemonView, v: Verdict) -> bool {
    v == Verdict::Ask && d.mode == Mode::Enforcement
}

/// Does the daemon learn a rule from what it sees?
pub open spec fn learns(d: DaemonView, v: Verdict) -> bool {
    v == Verdict::Ask && d.mode == Mode::Visibility
}

/// What a contact is recorded as: the name when one was seen, else the address.
pub open spec fn contact(host: Option<Seq<char>>, dst: IpAddr) -> Seq<char> {
    match host {
        Some(h) => if h == "-"@ {
            ip_text(dst)
        } else {
            h
        },
        None => ip_text(dst),
    }
}

/// The verdicts with one more settled.
pub open spec fn with_verdict(m: Map<Tuple, Verdict>, t: Tuple, v: Verdict) -> Map<Tuple, Verdict> {
    if v == Verdict::Ask {
        m
    } else if m.dom().len() > MAX_DECIDED {
        Map::<Tuple, Verdict>::empty().insert(t, v)
    } else {
        m.insert(t, v)
    }
}

/// The daemon after a flow was attributed and judged.
pub open spec fn after_flow(
    d: DaemonView,
    t: Tuple,
    att: Option<Attribution>,
    hash: Option<Seq<char>>,
    clock: u64,
) -> DaemonView {
    let exe = exe_of(att);
    let host = host_of(d.names, t.dst);
    let v = judgement(d, exe, hash, t.dst, t.dport);
    DaemonView {
        pol: if learns(d, v) {
            answered(d.pol, Answer::AllowConn, exe, t.dst, host, t.dport)
        } else {
            d.pol
        },
        asking: if asks(d, v) {
            d.asking.insert(question_key(exe, host, t.dst))
        } else {
            d.asking
        },
        warned: match exe {
            Some(e) => if is_changed(d.pol, exe, hash) {
                d.warned.insert(e)
            } else {
                d.warned
            },
            None => d.warned,
        },
        decided: with_verdict(d.decided, t, v),
        seen: match exe {
            Some(e) => noted(d.seen, e, contact(host, t.dst), clock),
            None => d.seen,
        },
        logged: d.logged.insert(t),
        ..d
    }
}

/// The prompt to raise for a flow: none while the same question is being asked.
pub open spec fn flow_prompt(
    d: DaemonView,
    t: Tuple,
    att: Option<Attribution>,
    hash: Option<Seq<char>>,
) -> Option<PromptView> {
    let exe = exe_of(att);
    let host = host_of(d.names, t.dst);
    let v = judgement(d, exe, hash, t.dst, t.dport);
    if asks(d, v) && !d.asking.contains(question_key(exe, host, t.dst)) {
        Some(
            PromptView {
                exe,
                pid: match att {
                    Some(a) => a.owner.pid,
                    None => 0,
                },
                command: match att {
                    Some(a) => a.owner.command@,
                    None => Seq::empty(),
                },
                dst: t.dst,
                dport: t.dport,
                host,
                changed: is_changed(d.pol, exe, hash),
                scope: scope_word(att),
            },
        )
    } else {
        None
    }
}

/// What the log calls a verdict.
pub open spec fn label_of(d: DaemonView, v: Verdict) -> Seq<char> {
    if learns(d, v) {
        "Learn"@
    } else {
        v.name()
    }
}

/// The log line of a flow.
pub open spec fn log_text(
    label: Seq<char>,
    t: Tuple,
    host: Option<Seq<char>>,
    att: Option<Attribution>,
) -> Seq<char> {
    left(label, 6) + seq![' '] + ip_text(t.src) + seq![':'] + dec(t.sport as nat) + " -> "@
        + ip_text(t.dst) + " ("@ + (match host {
        Some(h) => h,
        None => "-"@,
    }) + ") :"@ + dec(t.dport as nat) + "  "@ + (match att {
        Some(a) => a.owner.command@ + " ["@ + signed(a.owner.pid as int) + "] "@ + a.owner.path@
            + " ("@ + a.confidence.name() + ")"@,
        None => "<unattributed>"@,
    })
}

/// What a judged flow calls for.
#[derive(Debug)]
pub struct Outcome {
    pub verdict: Verdict,
    pub fate: Fate,
    /// A prompt to raise.
    pub prompt: Option<Prompt>,
    /// A line to append to the policy file, as `append_line` does.
    pub learned: Option<String>,
    /// Should the kernel be told the verdict, and whether it allows?
    pub push: Option<bool>,
    /// The binary is not the one that was approved, and this is news: the hash
    /// it had then.
    pub changed: Option<String>,
    /// A line for the log, the first time a flow is seen.
    pub log: Option<String>,
}

/// The hash to report a changed binary with, the first time it is noticed.
pub open spec fn change_news(
    d: DaemonView,
    exe: Option<Seq<char>>,
    hash: Option<Seq<char>>,
) -> Option<Seq<char>> {
    match exe {
        Some(e) => if is_changed(d.pol, exe, hash) && !d.warned.contains(e) {
            Some(d.pol.app_id[e])
        } else {
            None
        },
        None => None,
    }
}

/// Should the kernel be told? Only a settled verdict of a known binary, and only
/// while enforcing: the kernel hook knows no modes and would block.
pub open spec fn kernel_push(d: DaemonView, exe: Option<Seq<char>>, v: Verdict) -> Option<bool> {
    if v != Verdict::Ask && d.mode == Mode::Enforcement && exe is Some {
        Some(v == Verdict::Allow)
    } else {
        None
    }
}

fn push_host(out: &mut Vec<char>, host: Option<&str>)
    ensures
        final(out)@ == old(out)@ + (match opt_text(host) {
            Some(h) => h,
            None => "-"@,
        }),
{
    match host {
        Some(h) => push_text(out, h),
        None => push_text(out, "-"),
    }
}

fn push_who(out: &mut Vec<char>, att: &Option<Attribution>)
    ensures
        final(out)@ == old(out)@ + (match *att {
            Some(a) => a.owner.command@ + " ["@ + signed(a.owner.pid as int) + "] "@ + a.owner.path@
                + " ("@ + a.confidence.name() + ")"@,
            None => "<unattributed>"@,
        }),
{
    match att {
        Some(a) => {
            push_text(out, a.owner.command.as_str());
            push_text(out, " [");
            push_signed(out, a.owner.pid);
            push_text(out, "] ");
            push_text(out, a.owner.path.as_str());
            push_text(out, " (");
            push_text(out, a.confidence.as_str());
            push_text(out, ")");
            assert(out@ =~= old(out)@ + (a.owner.command@ + " ["@ + signed(a.owner.pid as int)
                + "] "@ + a.owner.path@ + " ("@ + a.confidence.name() + ")"@));
        },
        None => push_text(out, "<unattributed>"),
    }
}

/// The log line of a flow.
pub fn log_line(label: &str, t: &Tuple, host: Option<&str>, att: &Option<Attribution>) -> (r: String)
    ensures
        r@ == log_text(label@, *t, opt_text(host), *att),
{
    let mut out: Vec<char> = Vec::new();
    push_left_text(&mut out, label, 6);
    out.push(' ');
    push_ip(&mut out, &t.src);
    out.push(':');
    push_dec(&mut out, t.sport as u64);
    push_text(&mut out, " -> ");
    push_ip(&mut out, &t.dst);
    push_text(&mut out, " (");
    push_host(&mut out, host);
    push_text(&mut out, ") :");
    push_dec(&mut out, t.dport as u64);
    push_text(&mut out, "  ");
    push_who(&mut out, att);
    assert(out@ =~= log_text(label@, *t, opt_text(host), *att));
    string_of(&out)
}

// ---------------------------------------------------------------------------
// Kernel events.
// ---------------------------------------------------------------------------

/// A connection attempt that the kernel asks about.
#[derive(Debug)]
pub struct Upcall {
    pub id: u64,
    pub path: String,
    pub pid: i32,
    pub dst: IpAddr,
    pub dport: u16,
}

/// What a kernel event calls for.
#[derive(Debug)]
pub struct UpcallOutcome {
    pub verdict: Verdict,
    /// The answer to give at once, if there is one.
    pub reply: Option<bool>,
    pub prompt: Option<Prompt>,
    pub changed: Option<String>,
}

/// The verdict on a kernel event. An event without a binary is let through.
pub open spec fn upcall_verdict(d: DaemonView, ev: Upcall, hash: Option<Seq<char>>) -> Verdict {
    if ev.path@.len() == 0 {
        Verdict::Allow
    } else {
        judgement(d, Some(ev.path@), hash, ev.dst, ev.dport)
    }
}

/// The events that wait for an answer, with one more.
pub open spec fn with_waiter(
    m: Map<(Seq<char>, Seq<char>), Seq<u64>>,
    key: (Seq<char>, Seq<char>),
    id: u64,
) -> Map<(Seq<char>, Seq<char>), Seq<u64>> {
    if m.contains_key(key) {
        m.insert(key, m[key].push(id))
    } else {
        m.insert(key, seq![id])
    }
}

/// The daemon after a kernel event.
pub open spec fn after_upcall(d: DaemonView, ev: Upcall, hash: Option<Seq<char>>) -> DaemonView {
    let exe = Some(ev.path@);
    let host = host_of(d.names, ev.dst);
    let key = question_key(exe, host, ev.dst);
    let v = upcall_verdict(d, ev, hash);
    if ev.path@.len() == 0 {
        d
    } else {
        DaemonView {
            asking: if v == Verdict::Ask {
                d.asking.insert(key)
            } else {
                d.asking
            },
            waiting: if v == Verdict::Ask {
                with_waiter(d.waiting, key, ev.id)
            } else {
                d.waiting
            },
            warned: if is_changed(d.pol, exe, hash) {
                d.warned.insert(ev.path@)
            } else {
                d.warned
            },
            ..d
        }
    }
}

/// The prompt to raise for a kernel event.
pub open spec fn upcall_prompt(d: DaemonView, ev: Upcall, hash: Option<Seq<char>>) -> Option<
    PromptView,
> {
    let exe = Some(ev.path@);
    let host = host_of(d.names, ev.dst);
    if upcall_verdict(d, ev, hash) == Verdict::Ask && !d.asking.contains(
        question_key(exe, host, ev.dst),
    ) {
        Some(
            PromptView {
                exe,
                pid: ev.pid,
                command: split(ev.path@, '/').last(),
                dst: ev.dst,
                dport: ev.dport,
                host,
                changed: is_changed(d.pol, exe, hash),
                scope: "kernel"@,
            },
        )
    } else {
        None
    }
}

// ---------------------------------------------------------------------------
// Answers.
// ---------------------------------------------------------------------------

/// A question that has been put to the user.
#[derive(Debug)]
pub struct Pending {
    pub exe: Option<String>,
    pub host: Option<String>,
    pub dst: IpAddr,
    pub dport: u16,
}

/// The name that a question was about: an empty one is none.
pub open spec fn asked_host(host: Option<Seq<char>>) -> Option<Seq<char>> {
    match host {
        Some(h) => if h.len() == 0 {
            None
        } else {
            Some(h)
        },
        None => None,
    }
}

/// The question that a prompt puts to the user. The port is part of it, so that
/// the answer covers what was asked about.
pub fn pending(p: Prompt) -> (r: Pending)
    ensures
        opt_string(r.exe) == p@.exe,
        opt_string(r.host) == asked_host(p@.host),
        r.dst == p@.dst,
        r.dport == p@.dport,
{
    let host = match p.host {
        Some(h) => if h.as_str().is_empty() {
            None
        } else {
            Some(h)
        },
        None => None,
    };
    Pending { exe: p.exe, host, dst: p.dst, dport: p.dport }
}

/// What an answer calls for.
#[derive(Debug)]
pub struct Settled {
    /// Kernel events to answer, and how.
    pub resolve: Vec<u64>,
    pub allow: bool,
    /// Lines to append to the policy file, in this order, as `append_line` does.
    pub identity: Option<String>,
    pub rule: Option<String>,
}

/// The answer in what a prompt wrote. A prompt that failed, or wrote something
/// else, is as good as none.
pub open spec fn answer_in(output: Option<Seq<u8>>) -> Answer {
    match output {
        Some(b) => match answer_of(lossy(b)) {
            Some(a) => a,
            None => Answer::Timeout,
        },
        None => Answer::Timeout,
    }
}

/// The answer in what a prompt wrote, if it could be run.
pub fn read_answer(output: Option<&[u8]>) -> (r: Answer)
    ensures
        r == answer_in(opt_bytes(output)),
{
    match output {
        Some(b) => {
            let text = to_text_lossy(b);
            match Answer::parse(text.as_str()) {
                Some(a) => a,
                None => Answer::Timeout,
            }
        },
        None => Answer::Timeout,
    }
}

/// Does an answer approve?
pub open spec fn approves(ans: Answer) -> bool {
    ans == Answer::AllowConn || ans == Answer::AllowApp
}

/// Does an answer pin an identity, so that the hash of the binary is needed?
pub fn pins_identity(ans: Answer, exe: Option<&str>) -> (r: bool)
    ensures
        r == (approves(ans) && opt_text(exe) is Some),
{
    match ans {
        Answer::AllowConn | Answer::AllowApp => exe.is_some(),
        _ => false,
    }
}

/// The policy with the identity of an approved binary pinned anew: whoever
/// approves means the binary that is there now.
pub open spec fn repinned(p: PolicyView, exe: Seq<char>, hash: Option<Seq<char>>) -> PolicyView {
    let q = PolicyView { app_id: p.app_id.remove(exe), ..p };
    match hash {
        Some(h) => applied(q, DirectiveView::AppId(exe, lowercase(h))),
        None => q,
    }
}

/// The daemon after an answer.
pub open spec fn after_answer(
    d: DaemonView,
    ans: Answer,
    exe: Option<Seq<char>>,
    host: Option<Seq<char>>,
    dst: IpAddr,
    dport: u16,
    hash: Option<Seq<char>>,
) -> DaemonView {
    let key = question_key(exe, host, dst);
    let approved = approves(ans) && exe is Some;
    let pinned = if approved {
        repinned(d.pol, exe->0, hash)
    } else {
        d.pol
    };
    DaemonView {
        pol: answered(pinned, ans, exe, dst, host, dport),
        asking: d.asking.remove(key),
        waiting: d.waiting.remove(key),
        warned: if approved {
            d.warned.remove(exe->0)
        } else {
            d.warned
        },
        ..d
    }
}

/// What to do about the kernel backend.
#[derive(Debug, Clone, Copy, PartialEq, Eq, Structural)]
pub enum BackendStep {
    Keep,
    /// The device is gone: close it and fall back to scanning.
    Close,
    /// The policy asks for the device and it is not open: try to open it.
    Open,
}

/// What to do about the kernel backend, given what the policy asks for and how
/// the device is doing.
pub fn backend_step(wanted: AttributionMode, open: bool, dead: bool) -> (r: BackendStep)
    ensures
        r == (if wanted != AttributionMode::Kernel {
            BackendStep::Keep
        } else if open && dead {
            BackendStep::Close
        } else if !open {
            BackendStep::Open
        } else {
            BackendStep::Keep
        }),
{
    match wanted {
        AttributionMode::Procstat => BackendStep::Keep,
        AttributionMode::Kernel => if open && dead {
            BackendStep::Close
        } else if !open {
            BackendStep::Open
        } else {
            BackendStep::Keep
        },
    }
}

/// What to do about kernel events.
#[derive(Debug, Clone, Copy, PartialEq, Eq, Structural)]
pub enum UpcallSwitch {
    Keep,
    TurnOn,
    TurnOff,
}

/// The daemon after it has read a new version of the policy file.
pub open spec fn reloaded(d: DaemonView, text: Seq<char>) -> DaemonView {
    DaemonView {
        pol: loaded(text),
        mode: mode_for(loaded(text), d.fallback),
        decided: Map::empty(),
        ..d
    }
}

/// What a reload changed.
#[derive(Debug, Clone, Copy, PartialEq, Eq, Structural)]
pub struct Reloaded {
    pub attribution_changed: bool,
    pub mode_before: Mode,
}

impl Daemon {
    /// Nothing is stored twice, and no question is stored as a verdict.
    pub open spec fn wf(&self) -> bool {
        &&& self.pol.wf()
        &&& self.names.wf()
        &&& self.seen.wf()
        &&& self.asking.wf()
        &&& self.waiting.wf()
        &&& self.warned.wf()
        &&& self.decided.wf()
        &&& self.logged.wf()
        &&& only_settled(self.decided@)
    }

    /// Start from the policy file and the last-seen table.
    pub fn new(text: &str, seen_text: &str, fallback: Mode, now: u64) -> (r: Daemon)
        ensures
            r.wf(),
            r@ == started(text@, seen_text@, fallback, now),
    {
        let pol = Policy::load(text);
        let mode = pol.mode(fallback);
        let r = Daemon {
            pol,
            mode,
            fallback,
            names: DnsCache::new(),
            seen: Seen::new(seen_text),
            asking: Table::new(),
            waiting: Table::new(),
            upcall_on: false,
            warned: Table::new(),
            decided: Table::new(),
            logged: Table::new(),
            logged_cleared: now,
            last_check: now,
        };
        assert(r@ =~= started(text@, seen_text@, fallback, now));
        r
    }

    /// Take a first look at a packet. `inbound` says that it was arriving, not
    /// leaving.
    pub fn look(&mut self, pkt: &[u8], inbound: bool, now: u64) -> (r: Step)
        requires
            old(self).wf(),
            pkt@.len() <= isize::MAX,
        ensures
            final(self).wf(),
            r == first_look(old(self)@, pkt@, inbound),
            final(self)@ == looked(old(self)@, pkt@, now),
    {
        let f = match parse(pkt) {
            Some(f) => f,
            None => return Step::Done(Fate::Forward),
        };
        if f.proto == 17 && f.sport == 53 {
            if let Some(off) = payload_offset(pkt) {
                if off < pkt.len() {
                    let payload = &pkt[off..pkt.len()];
                    assert(payload@ =~= pkt@.skip(off as int));
                    self.names.observe(payload, now);
                }
            }
            return Step::Done(Fate::Forward);
        }
        if inbound || !(f.syn_only || f.proto == 17) {
            return Step::Done(Fate::Forward);
        }
        let t = Tuple { proto: f.proto, src: f.src, sport: f.sport, dst: f.dst, dport: f.dport };
        match self.decided.get(&t) {
            Some(v) => match v {
                Verdict::Deny => Step::Done(Fate::Reject),
                Verdict::Allow => Step::Done(Fate::Forward),
                Verdict::Ask => Step::Done(Fate::Forward),
            },
            None => Step::Attribute(t),
        }
    }

    /// Is the identity of this binary on record, so that its hash is needed?
    pub fn needs_hash(&self, exe: Option<&str>) -> (r: bool)
        requires
            self.wf(),
        ensures
            r == (opt_text(exe) matches Some(e) && self@.pol.app_id.contains_key(e)),
    {
        match exe {
            Some(e) => self.pol.expected_id(e).is_some(),
            None => false,
        }
    }

    /// Has the binary changed since it was approved?
    fn changed(&self, exe: Option<&str>, hash: Option<&str>) -> (r: bool)
        requires
            self.wf(),
        ensures
            r == is_changed(self@.pol, opt_text(exe), opt_text(hash)),
    {
        match (exe, hash) {
            (Some(e), Some(h)) => match self.pol.expected_id(e) {
                Some(x) => !same(x, h),
                None => false,
            },
            _ => false,
        }
    }

    /// Note that a binary has changed. The result is the hash it had when it was
    /// approved, if this is news.
    fn note_change(&mut self, exe: Option<&str>, hash: Option<&str>) -> (r: Option<String>)
        requires
            old(self).wf(),
        ensures
            final(self).wf(),
            opt_string(r) == change_news(old(self)@, opt_text(exe), opt_text(hash)),
            final(self)@ == (DaemonView {
                warned: match opt_text(exe) {
                    Some(e) => if is_changed(old(self)@.pol, opt_text(exe), opt_text(hash)) {
                        old(self)@.warned.insert(e)
                    } else {
                        old(self)@.warned
                    },
                    None => old(self)@.warned,
                },
                ..old(self)@
            }),
    {
        if !self.changed(exe, hash) {
            return None;
        }
        match exe {
            Some(e) => {
                let k = e.to_owned();
                let known = self.warned.contains(&k);
                let before = match self.pol.expected_id(e) {
                    Some(x) => Some(x.to_owned()),
                    None => None,
                };
                self.warned.insert(k, ());
                assert(self@.warned =~= old(self)@.warned.insert(e@));
                if known {
                    None
                } else {
                    before
                }
            },
            None => None,
        }
    }

    /// Judge a flow, given who owns it and what its binary hashes to now. `clock`
    /// is the time in seconds since the epoch.
    pub fn judge(&mut self, t: &Tuple, att: &Option<Attribution>, hash: Option<&str>, clock: u64) -> (r:
        Outcome)
        requires
            old(self).wf(),
        ensures
            final(self).wf(),
            final(self)@ == after_flow(old(self)@, *t, *att, opt_text(hash), clock),
            ({
                let d = old(self)@;
                let exe = exe_of(*att);
                let host = host_of(d.names, t.dst);
                let v = judgement(d, exe, opt_text(hash), t.dst, t.dport);
                &&& r.verdict == v
                &&& r.fate == fate_of(d.mode, v)
                &&& opt_prompt(r.prompt) == flow_prompt(d, *t, *att, opt_text(hash))
                &&& opt_string(r.learned) == (if learns(d, v) {
                    recorded_line(
                        Answer::AllowConn,
                        exe,
                        t.dst,
                        host,
                        t.dport,
                        Origin::Learned,
                    )
                } else {
                    None
                })
                &&& r.push == kernel_push(d, exe, v)
                &&& opt_string(r.changed) == change_news(d, exe, opt_text(hash))
                &&& opt_string(r.log) == (if d.logged.contains(*t) {
                    None
                } else {
                    Some(log_text(label_of(d, v), *t, host, *att))
                })
            }),
    {
        let ghost d = self@;
        let exe: Option<String> = match att {
            Some(a) => Some(a.owner.path.clone()),
            None => None,
        };
        let exe_ref: Option<&str> = match &exe {
            Some(e) => Some(e.as_str()),
            None => None,
        };
        let host: Option<String> = match self.names.name_for(&t.dst) {
            Some(h) => Some(h.to_owned()),
            None => None,
        };
        let host_ref: Option<&str> = match &host {
            Some(h) => Some(h.as_str()),
            None => None,
        };
        let is_other = self.changed(exe_ref, hash);
        let verdict = if is_other {
            Verdict::Ask
        } else {
            self.pol.decide(exe_ref, t.dst, host_ref, t.dport)
        };
        let changed = self.note_change(exe_ref, hash);
        let enforcing = self.mode.enforcing();
        let mut prompt: Option<Prompt> = None;
        let mut learned: Option<String> = None;
        let mut label: &str = verdict.as_str();
        let ghost key = question_key(exe_of(*att), opt_text(host_ref), t.dst);
        let fate = match verdict {
            Verdict::Allow => Fate::Forward,
            Verdict::Deny => Fate::Reject,
            Verdict::Ask => {
                if enforcing {
                    let k = question_pair(exe_ref, host_ref, &t.dst);
                    let again = self.asking.contains(&k);
                    self.asking.insert(k, ());
                    assert(self@.asking =~= d.asking.insert(key));
                    if !again {
                        prompt = Some(new_prompt(t, att, &host, is_other));
                    }
                    Fate::Hold
                } else {
                    learned = self.pol.record(
                        Answer::AllowConn,
                        exe_ref,
                        t.dst,
                        host_ref,
                        t.dport,
                        Origin::Learned,
                    );
                    label = "Learn";
                    Fate::Forward
                }
            },
        };
        let mut push: Option<bool> = None;
        let settled = match verdict {
            Verdict::Ask => false,
            _ => true,
        };
        if settled {
            if self.decided.len() > MAX_DECIDED {
                self.decided.clear();
            }
            self.decided.insert(*t, verdict);
            if enforcing && exe_ref.is_some() {
                push = Some(
                    match verdict {
                        Verdict::Allow => true,
                        _ => false,
                    },
                );
            }
        }
        if let Some(e) = exe_ref {
            match host_ref {
                Some(h) => {
                    if same(h, "-") {
                        let dest = t.dst.to_text();
                        self.seen.touch_at(e, dest.as_str(), clock);
                    } else {
                        self.seen.touch_at(e, h, clock);
                    }
                },
                None => {
                    let dest = t.dst.to_text();
                    self.seen.touch_at(e, dest.as_str(), clock);
                },
            }
        }
        let known = self.logged.contains(t);
        self.logged.insert(*t, ());
        assert(self@.logged =~= d.logged.insert(*t));
        let log = if known {
            None
        } else {
            Some(log_line(label, t, host_ref, att))
        };
        assert(self@ =~= after_flow(d, *t, *att, opt_text(hash), clock));
        Outcome { verdict, fate, prompt, learned, push, changed, log }
    }

    /// Decide about a connection attempt that the kernel asks about, given what
    /// its binary hashes to now.
    pub fn upcall(&mut self, ev: &Upcall, hash: Option<&str>) -> (r: UpcallOutcome)
        requires
            old(self).wf(),
        ensures
            final(self).wf(),
            final(self)@ == after_upcall(old(self)@, *ev, opt_text(hash)),
            r.verdict == upcall_verdict(old(self)@, *ev, opt_text(hash)),
            r.reply == (match upcall_verdict(old(self)@, *ev, opt_text(hash)) {
                Verdict::Allow => Some(true),
                Verdict::Deny => Some(false),
                Verdict::Ask => None,
            }),
            opt_prompt(r.prompt) == upcall_prompt(old(self)@, *ev, opt_text(hash)),
            opt_string(r.changed) == (if ev.path@.len() == 0 {
                None
            } else {
                change_news(old(self)@, Some(ev.path@), opt_text(hash))
            }),
    {
        let ghost d = self@;
        if ev.path.as_str().is_empty() {
            return UpcallOutcome {
                verdict: Verdict::Allow,
                reply: Some(true),
                prompt: None,
                changed: None,
            };
        }
        let exe: Option<&str> = Some(ev.path.as_str());
        let host: Option<String> = match self.names.name_for(&ev.dst) {
            Some(h) => Some(h.to_owned()),
            None => None,
        };
        let host_ref: Option<&str> = match &host {
            Some(h) => Some(h.as_str()),
            None => None,
        };
        let is_other = self.changed(exe, hash);
        let verdict = if is_other {
            Verdict::Ask
        } else {
            self.pol.decide(exe, ev.dst, host_ref, ev.dport)
        };
        let changed = self.note_change(exe, hash);
        match verdict {
            Verdict::Allow => UpcallOutcome { verdict, reply: Some(true), prompt: None, changed },
            Verdict::Deny => UpcallOutcome { verdict, reply: Some(false), prompt: None, changed },
            Verdict::Ask => {
                let ghost key = question_key(Some(ev.path@), opt_text(host_ref), ev.dst);
                let k = question_pair(exe, host_ref, &ev.dst);
                let again = self.asking.contains(&k);
                let mut ids: Vec<u64> = match self.waiting.get(&k) {
                    Some(v) => copy_ids(v),
                    None => Vec::new(),
                };
                ids.push(ev.id);
                let ghost list = ids@;
                self.waiting.insert(k, ids);
                self.asking.insert(question_pair(exe, host_ref, &ev.dst), ());
                proof {
                    assert(self@.asking =~= d.asking.insert(key));
                    if !d.waiting.contains_key(key) {
                        assert(list =~= seq![ev.id]);
                    }
                    assert(self@.waiting =~= with_waiter(d.waiting, key, ev.id));
                }
                let prompt = if again {
                    None
                } else {
                    Some(upcall_question(ev, &host, is_other))
                };
                UpcallOutcome { verdict, reply: None, prompt, changed }
            },
        }
    }

    /// Take an answer into account, given what the binary hashes to now where
    /// the answer approves it.
    pub fn answer(&mut self, ans: Answer, p: &Pending, hash: Option<&str>) -> (r: Settled)
        requires
            old(self).wf(),
        ensures
            final(self).wf(),
            final(self)@ == after_answer(
                old(self)@,
                ans,
                opt_string(p.exe),
                opt_string(p.host),
                p.dst,
                p.dport,
                opt_text(hash),
            ),
            ({
                let d = old(self)@;
                let key = question_key(opt_string(p.exe), opt_string(p.host), p.dst);
                &&& r.allow == approves(ans)
                &&& r.resolve@ == (if d.waiting.contains_key(key) {
                    d.waiting[key]
                } else {
                    Seq::empty()
                })
                &&& opt_string(r.identity) == (match (opt_string(p.exe), opt_text(hash)) {
                    (Some(e), Some(h)) => if approves(ans) {
                        Some(identity_line(e, h))
                    } else {
                        None
                    },
                    _ => None,
                })
                &&& opt_string(r.rule) == recorded_line(
                    ans,
                    opt_string(p.exe),
                    p.dst,
                    opt_string(p.host),
                    p.dport,
                    Origin::Approved,
                )
            }),
    {
        let ghost d = self@;
        let exe: Option<&str> = match &p.exe {
            Some(e) => Some(e.as_str()),
            None => None,
        };
        let host: Option<&str> = match &p.host {
            Some(h) => Some(h.as_str()),
            None => None,
        };
        let ghost key = question_key(opt_text(exe), opt_text(host), p.dst);
        let k = question_pair(exe, host, &p.dst);
        self.asking.remove(&k);
        assert(self@.asking =~= d.asking.remove(key));
        let resolve: Vec<u64> = match self.waiting.get(&k) {
            Some(v) => copy_ids(v),
            None => Vec::new(),
        };
        self.waiting.remove(&k);
        assert(self@.waiting =~= d.waiting.remove(key));
        let allow = match ans {
            Answer::AllowConn | Answer::AllowApp => true,
            _ => false,
        };
        let mut identity: Option<String> = None;
        if allow {
            if let Some(e) = exe {
                self.pol.forget_id(e);
                self.warned.remove(&e.to_owned());
                assert(self@.warned =~= d.warned.remove(e@));
                if let Some(h) = hash {
                    identity = self.pol.record_id(e, h);
                }
            }
        }
        let rule = self.pol.record(ans, exe, p.dst, host, p.dport, Origin::Approved);
        Settled { resolve, allow, identity, rule }
    }

    /// Take a new version of the policy file. Everything that was derived from
    /// the old one is forgotten.
    pub fn reload(&mut self, text: &str) -> (r: Reloaded)
        requires
            old(self).wf(),
        ensures
            final(self).wf(),
            final(self)@ == reloaded(old(self)@, text@),
            r.mode_before == old(self)@.mode,
            r.attribution_changed == (backend_for(old(self)@.pol) != backend_for(loaded(text@))),
    {
        let was = self.pol.attribution();
        let mode_before = self.mode;
        self.pol = Policy::load(text);
        self.mode = self.pol.mode(self.fallback);
        self.decided.clear();
        let attribution_changed = self.pol.attribution() != was;
        Reloaded { attribution_changed, mode_before }
    }

    /// Forget which flows were logged, now and then: that bounds the memory, and
    /// lets a long-running flow show up again.
    pub fn tidy(&mut self, now: u64)
        requires
            old(self).wf(),
        ensures
            final(self).wf(),
            final(self)@ == (if elapsed(old(self)@.logged_cleared, now) >= LOG_SPAN
                || old(self)@.logged.len() > MAX_LOGGED {
                DaemonView { logged: Set::empty(), logged_cleared: now, ..old(self)@ }
            } else {
                old(self)@
            }),
    {
        let passed: u64 = if now >= self.logged_cleared {
            now - self.logged_cleared
        } else {
            0
        };
        if passed >= LOG_SPAN || self.logged.len() > MAX_LOGGED {
            self.logged.clear();
            self.logged_cleared = now;
            assert(self@.logged =~= Set::<Tuple>::empty());
        }
    }

    /// Is it time to look at the policy file again?
    pub fn check_due(&mut self, now: u64) -> (r: bool)
        requires
            old(self).wf(),
        ensures
            final(self).wf(),
            r == (elapsed(old(self)@.last_check, now) >= CHECK_SPAN),
            final(self)@ == (if r {
                DaemonView { last_check: now, ..old(self)@ }
            } else {
                old(self)@
            }),
    {
        let passed: u64 = if now >= self.last_check {
            now - self.last_check
        } else {
            0
        };
        if passed >= CHECK_SPAN {
            self.last_check = now;
            true
        } else {
            false
        }
    }

    /// What to do about kernel events. They are asked for only with the kernel
    /// backend, and only while enforcing: observing must never block.
    pub fn upcall_switch(&self, backend_open: bool) -> (r: UpcallSwitch)
        ensures
            r == (if (backend_open && self@.mode == Mode::Enforcement) == self@.upcall_on {
                UpcallSwitch::Keep
            } else if self@.upcall_on {
                UpcallSwitch::TurnOff
            } else {
                UpcallSwitch::TurnOn
            }),
    {
        let want = backend_open && self.mode.enforcing();
        if want && !self.upcall_on {
            UpcallSwitch::TurnOn
        } else if !want && self.upcall_on {
            UpcallSwitch::TurnOff
        } else {
            UpcallSwitch::Keep
        }
    }

    /// Kernel events are being asked for from now on.
    pub fn upcalls_on(&mut self)
        requires
            old(self).wf(),
        ensures
            final(self).wf(),
            final(self)@ == (DaemonView { upcall_on: true, ..old(self)@ }),
    {
        self.upcall_on = true;
    }

    /// Kernel events are no longer asked for: whatever waits is never answered.
    pub fn upcalls_off(&mut self)
        requires
            old(self).wf(),
        ensures
            final(self).wf(),
            final(self)@ == (DaemonView {
                upcall_on: false,
                waiting: Map::empty(),
                ..old(self)@
            }),
    {
        self.upcall_on = false;
        self.waiting.clear();
        assert(self@.waiting =~= Map::<(Seq<char>, Seq<char>), Seq<u64>>::empty());
    }
}

/// The backend a policy asks for.
pub open spec fn backend_for(p: PolicyView) -> AttributionMode {
    match p.attribution {
        Some(a) => a,
        None => AttributionMode::Procstat,
    }
}

fn copy_ids(v: &Vec<u64>) -> (r: Vec<u64>)
    ensures
        r@ == v@,
{
    let mut out: Vec<u64> = Vec::new();
    let n: usize = v.len();
    assert(v@.take(0) =~= Seq::<u64>::empty());
    for i in 0..n
        invariant
            n == v@.len(),
            out@ == v@.take(i as int),
    {
        out.push(v[i]);
        assert(v@.take(i + 1) =~= v@.take(i as int).push(v@[i as int]));
    }
    assert(v@.take(n as int) =~= v@);
    out
}

fn copy_host(host: &Option<String>) -> (r: Option<String>)
    ensures
        opt_string(r) == opt_string(*host),
{
    match host {
        Some(h) => Some(h.clone()),
        None => None,
    }
}

fn new_prompt(t: &Tuple, att: &Option<Attribution>, host: &Option<String>, changed: bool) -> (r:
    Prompt)
    ensures
        r@ == (PromptView {
            exe: exe_of(*att),
            pid: match *att {
                Some(a) => a.owner.pid,
                None => 0,
            },
            command: match *att {
                Some(a) => a.owner.command@,
                None => Seq::empty(),
            },
            dst: t.dst,
            dport: t.dport,
            host: opt_string(*host),
            changed,
            scope: scope_word(*att),
        }),
{
    let host = copy_host(host);
    match att {
        Some(a) => Prompt {
            exe: Some(a.owner.path.clone()),
            pid: a.owner.pid,
            command: a.owner.command.clone(),
            dst: t.dst,
            dport: t.dport,
            host,
            changed,
            scope: a.confidence.as_str().to_owned(),
        },
        None => {
            let none = String::new();
            assert(none@ =~= Seq::<char>::empty());
            Prompt {
                exe: None,
                pid: 0,
                command: none,
                dst: t.dst,
                dport: t.dport,
                host,
                changed,
                scope: "none".to_owned(),
            }
        },
    }
}

fn upcall_question(ev: &Upcall, host: &Option<String>, changed: bool) -> (r: Prompt)
    ensures
        r@ == (PromptView {
            exe: Some(ev.path@),
            pid: ev.pid,
            command: split(ev.path@, '/').last(),
            dst: ev.dst,
            dport: ev.dport,
            host: opt_string(*host),
            changed,
            scope: "kernel"@,
        }),
{
    let path = chars_of(ev.path.as_str());
    let parts = split_chars(&path, '/');
    let n: usize = parts.len();
    assert(split(path@, '/').len() > 0);
    Prompt {
        exe: Some(ev.path.clone()),
        pid: ev.pid,
        command: string_of(&parts[n - 1]),
        dst: ev.dst,
        dport: ev.dport,
        host: copy_host(host),
        changed,
        scope: "kernel".to_owned(),
    }
}

} // verus!
