//! What holds of every packet, question and answer.
use crate::addr::{ip_text, lemma_ip_text_injective, IpAddr};
use crate::daemon::{
    after_answer, after_flow, after_upcall, answer_in, approves, asked_host, asks, disposal, exe_of, fate_of,
    first_look, flow_prompt, host_of, is_attempt, is_changed, is_dns_reply, judgement, kernel_push,
    learns, looked, question, question_key, reloaded, tuple_of, upcall_verdict, with_verdict, ActionView,
    DaemonView, Fate, Step, Upcall, MAX_DECIDED,
};
use crate::divert::flow_of;
use crate::line::is_word;
use crate::platform::lowercase;
use crate::policy::{identity_line, loaded, named, recorded_line, seen_conn, verdict};
use crate::policy_laws::{
    is_recordable, lemma_approval_allows, lemma_identity_then_load, lemma_record_then_load,
};
use crate::procinfo::{Attribution, Tuple};
use crate::text::appended;
use crate::words::{Answer, Mode, Origin, Verdict};
use vstd::prelude::*;

verus! {

// ---------------------------------------------------------------------------
// Packets.
// ---------------------------------------------------------------------------

/// Observing never drops anything.
pub proof fn lemma_visibility_never_drops(fate: Fate, pkt: Seq<u8>)
    ensures
        disposal(Mode::Visibility, fate, pkt) == ActionView::Forward,
{
}

/// Only a settled deny is answered with a reset; a packet that waits for an
/// answer is dropped in silence.
pub proof fn lemma_only_denials_are_reset(mode: Mode, fate: Fate, pkt: Seq<u8>)
    ensures
        disposal(mode, fate, pkt) is Reset ==> fate == Fate::Reject && mode == Mode::Enforcement,
        fate == Fate::Hold ==> !(disposal(mode, fate, pkt) is Reset),
        mode == Mode::Enforcement && fate != Fate::Forward ==> disposal(mode, fate, pkt)
            != ActionView::Forward,
{
}

/// An inbound packet and a name server reply are never judged.
pub proof fn lemma_replies_go_through(d: DaemonView, pkt: Seq<u8>, inbound: bool)
    requires
        inbound || (flow_of(pkt) matches Some(f) && is_dns_reply(f)),
    ensures
        first_look(d, pkt, inbound) == Step::Done(Fate::Forward),
{
}

/// A packet of an open connection goes through.
pub proof fn lemma_open_connections_go_through(d: DaemonView, pkt: Seq<u8>)
    requires
        flow_of(pkt) matches Some(f) && !is_attempt(f),
    ensures
        first_look(d, pkt, false) == Step::Done(Fate::Forward),
{
}

/// Looking at a packet changes nothing but what names are known.
pub proof fn lemma_looking_teaches_names_only(d: DaemonView, pkt: Seq<u8>, now: u64)
    ensures
        looked(d, pkt, now) == (DaemonView { names: looked(d, pkt, now).names, ..d }),
{
}

// ---------------------------------------------------------------------------
// Verdicts.
// ---------------------------------------------------------------------------

/// Once a flow is judged, its later packets get the same verdict without being
/// judged again.
pub proof fn lemma_verdicts_stick(
    d: DaemonView,
    t: Tuple,
    att: Option<Attribution>,
    hash: Option<Seq<char>>,
    clock: u64,
    pkt: Seq<u8>,
)
    requires
        judgement(d, exe_of(att), hash, t.dst, t.dport) != Verdict::Ask,
        flow_of(pkt) matches Some(f) && tuple_of(f) == t && is_attempt(f) && !is_dns_reply(f),
    ensures
        first_look(after_flow(d, t, att, hash, clock), pkt, false) == Step::Done(
            fate_of(d.mode, judgement(d, exe_of(att), hash, t.dst, t.dport)),
        ),
{
}

/// A question is never remembered as if it were settled. The flow is judged again
/// until there is an answer.
pub proof fn lemma_questions_are_not_remembered(
    d: DaemonView,
    t: Tuple,
    att: Option<Attribution>,
    hash: Option<Seq<char>>,
    clock: u64,
)
    requires
        judgement(d, exe_of(att), hash, t.dst, t.dport) == Verdict::Ask,
    ensures
        after_flow(d, t, att, hash, clock).decided == d.decided,
{
}

/// A new policy file lets no verdict of the old one stand: every attempt is judged
/// anew.
pub proof fn lemma_reload_forgets_verdicts(d: DaemonView, text: Seq<char>, pkt: Seq<u8>)
    requires
        flow_of(pkt) matches Some(f) && is_attempt(f) && !is_dns_reply(f),
    ensures
        first_look(reloaded(d, text), pkt, false) == Step::Attribute(tuple_of(flow_of(pkt)->0)),
{
}

/// A flow that was judged counts as logged, so that it is written to the log once.
pub proof fn lemma_flows_are_logged_once(
    d: DaemonView,
    t: Tuple,
    att: Option<Attribution>,
    hash: Option<Seq<char>>,
    clock: u64,
    other: Tuple,
)
    ensures
        after_flow(d, t, att, hash, clock).logged.contains(t),
        other != t ==> after_flow(d, t, att, hash, clock).logged.contains(other)
            == d.logged.contains(other),
{
}

/// The memory of verdicts stays bounded.
pub proof fn lemma_memory_is_bounded(m: Map<Tuple, Verdict>, t: Tuple, v: Verdict)
    requires
        m.dom().finite(),
        m.dom().len() <= MAX_DECIDED + 1,
    ensures
        with_verdict(m, t, v).dom().len() <= MAX_DECIDED + 1,
{
    assert(m.insert(t, v).dom() =~= m.dom().insert(t));
    assert(Map::<Tuple, Verdict>::empty().insert(t, v).dom() =~= set![t]);
}

/// A binary that was replaced loses the benefit of its rules: it is asked about,
/// whatever they say.
pub proof fn lemma_changed_binaries_are_asked_about(
    d: DaemonView,
    exe: Option<Seq<char>>,
    hash: Option<Seq<char>>,
    dst: IpAddr,
    dport: u16,
)
    requires
        is_changed(d.pol, exe, hash),
    ensures
        judgement(d, exe, hash, dst, dport) == Verdict::Ask,
        d.mode == Mode::Enforcement ==> fate_of(
            d.mode,
            judgement(d, exe, hash, dst, dport),
        ) == Fate::Hold,
{
}

/// Only the path of a binary counts. The name of its process, which anyone can
/// choose, does not.
pub proof fn lemma_only_paths_count(
    d: DaemonView,
    a: Attribution,
    b: Attribution,
    hash: Option<Seq<char>>,
    dst: IpAddr,
    dport: u16,
)
    requires
        a.owner.path@ == b.owner.path@,
    ensures
        judgement(d, exe_of(Some(a)), hash, dst, dport) == judgement(
            d,
            exe_of(Some(b)),
            hash,
            dst,
            dport,
        ),
{
}

/// Traffic pins no identity; only an approval does.
pub proof fn lemma_traffic_pins_nothing(
    d: DaemonView,
    t: Tuple,
    att: Option<Attribution>,
    hash: Option<Seq<char>>,
    clock: u64,
)
    ensures
        after_flow(d, t, att, hash, clock).pol.app_id == d.pol.app_id,
{
}

/// A binary that cannot be hashed, or has no identity on record, is judged by its
/// rules.
pub proof fn lemma_unhashed_binaries_keep_their_rules(
    d: DaemonView,
    exe: Option<Seq<char>>,
    hash: Option<Seq<char>>,
    dst: IpAddr,
    dport: u16,
)
    requires
        hash is None || exe is None || !d.pol.app_id.contains_key(exe->0),
    ensures
        judgement(d, exe, hash, dst, dport) == verdict(
            d.pol,
            seen_conn(exe, dst, host_of(d.names, dst), dport),
        ),
{
}

/// What is learned while observing is allowed from then on: the same connection
/// is not learned twice.
pub proof fn lemma_learning_allows(
    d: DaemonView,
    t: Tuple,
    att: Option<Attribution>,
    hash: Option<Seq<char>>,
    clock: u64,
)
    requires
        learns(d, judgement(d, exe_of(att), hash, t.dst, t.dport)),
        !is_changed(d.pol, exe_of(att), hash),
    ensures
        judgement(after_flow(d, t, att, hash, clock), exe_of(att), hash, t.dst, t.dport)
            == Verdict::Allow,
{
    let host = host_of(d.names, t.dst);
    lemma_approval_allows(d.pol, exe_of(att), t.dst, host, t.dport);
}

/// The kernel is told settled verdicts of known binaries only, and only while
/// enforcing: it knows no modes, and would block while the daemon only observes.
pub proof fn lemma_kernel_is_told_while_enforcing(d: DaemonView, exe: Option<Seq<char>>, v: Verdict)
    ensures
        kernel_push(d, exe, v) is Some ==> d.mode == Mode::Enforcement && v != Verdict::Ask && exe
            is Some,
        kernel_push(d, exe, v) == Some(true) ==> v == Verdict::Allow,
        kernel_push(d, exe, v) == Some(false) ==> v == Verdict::Deny,
{
}

// ---------------------------------------------------------------------------
// Questions.
// ---------------------------------------------------------------------------

/// One name is one question, whatever address it has and in whatever case it is
/// written.
pub proof fn lemma_one_name_one_question(g: Seq<char>, h: Seq<char>, a: IpAddr, b: IpAddr)
    requires
        named(Some(g)) is Some,
        named(Some(h)) is Some,
        lowercase(g) == lowercase(h),
    ensures
        question(Some(g), a) == question(Some(h), b),
{
}

/// Names that differ in more than case are different questions.
pub proof fn lemma_names_are_kept_apart(g: Seq<char>, h: Seq<char>, a: IpAddr, b: IpAddr)
    requires
        named(Some(g)) is Some,
        named(Some(h)) is Some,
        lowercase(g) != lowercase(h),
    ensures
        question(Some(g), a) != question(Some(h), b),
{
}

/// Without a name the address is the question, and a placeholder is no name.
pub proof fn lemma_addresses_are_kept_apart(
    g: Option<Seq<char>>,
    h: Option<Seq<char>>,
    a: IpAddr,
    b: IpAddr,
)
    requires
        named(g) is None,
        named(h) is None,
    ensures
        question(g, a) == ip_text(a),
        question(g, a) == question(h, b) <==> a == b,
{
    lemma_ip_text_injective(a, b);
}

/// While a question is being asked it is not asked again.
pub proof fn lemma_one_prompt_per_question(
    d: DaemonView,
    t: Tuple,
    att: Option<Attribution>,
    hash: Option<Seq<char>>,
    clock: u64,
    t2: Tuple,
    att2: Option<Attribution>,
    hash2: Option<Seq<char>>,
)
    requires
        asks(d, judgement(d, exe_of(att), hash, t.dst, t.dport)),
        question_key(exe_of(att), host_of(d.names, t.dst), t.dst) == question_key(
            exe_of(att2),
            host_of(d.names, t2.dst),
            t2.dst,
        ),
    ensures
        flow_prompt(after_flow(d, t, att, hash, clock), t2, att2, hash2) is None,
{
}

/// A packet is held only while its question is being asked: none is held without
/// a prompt.
pub proof fn lemma_held_packets_have_a_prompt(
    d: DaemonView,
    t: Tuple,
    att: Option<Attribution>,
    hash: Option<Seq<char>>,
    clock: u64,
)
    requires
        fate_of(d.mode, judgement(d, exe_of(att), hash, t.dst, t.dport)) == Fate::Hold,
    ensures
        flow_prompt(d, t, att, hash) is Some || d.asking.contains(
            question_key(exe_of(att), host_of(d.names, t.dst), t.dst),
        ),
        after_flow(d, t, att, hash, clock).asking.contains(
            question_key(exe_of(att), host_of(d.names, t.dst), t.dst),
        ),
{
}

/// The answer to a prompt closes the question that the prompt was raised for.
pub proof fn lemma_answers_find_their_question(
    d: DaemonView,
    t: Tuple,
    att: Option<Attribution>,
    hash: Option<Seq<char>>,
    clock: u64,
    ans: Answer,
    hash_then: Option<Seq<char>>,
)
    requires
        flow_prompt(d, t, att, hash) is Some,
    ensures
        ({
            let p = flow_prompt(d, t, att, hash)->0;
            let key = question_key(exe_of(att), host_of(d.names, t.dst), t.dst);
            let asked = after_flow(d, t, att, hash, clock);
            let after = after_answer(
                asked,
                ans,
                p.exe,
                asked_host(p.host),
                p.dst,
                p.dport,
                hash_then,
            );
            &&& !d.asking.contains(key)
            &&& asked.asking.contains(key)
            &&& !after.asking.contains(key)
        }),
{
}

/// An answer closes its question, and no other.
pub proof fn lemma_answers_close_their_question(
    d: DaemonView,
    ans: Answer,
    exe: Option<Seq<char>>,
    host: Option<Seq<char>>,
    dst: IpAddr,
    dport: u16,
    hash: Option<Seq<char>>,
    other: (Seq<char>, Seq<char>),
)
    ensures
        ({
            let after = after_answer(d, ans, exe, host, dst, dport, hash);
            let key = question_key(exe, host, dst);
            &&& !after.asking.contains(key)
            &&& !after.waiting.contains_key(key)
            &&& other != key ==> after.asking.contains(other) == d.asking.contains(other)
            &&& other != key && d.waiting.contains_key(other) ==> after.waiting.contains_key(other)
                && after.waiting[other] == d.waiting[other]
        }),
{
}

/// A kernel event that needs an answer waits under its question, behind those
/// that wait already.
pub proof fn lemma_events_wait_for_their_answer(d: DaemonView, ev: Upcall, hash: Option<Seq<char>>)
    requires
        upcall_verdict(d, ev, hash) == Verdict::Ask,
    ensures
        ({
            let key = question_key(Some(ev.path@), host_of(d.names, ev.dst), ev.dst);
            let after = after_upcall(d, ev, hash);
            &&& after.asking.contains(key)
            &&& after.waiting.contains_key(key)
            &&& after.waiting[key].last() == ev.id
            &&& d.waiting.contains_key(key) ==> after.waiting[key].drop_last() == d.waiting[key]
        }),
{
    let key = question_key(Some(ev.path@), host_of(d.names, ev.dst), ev.dst);
    let after = after_upcall(d, ev, hash);
    if d.waiting.contains_key(key) {
        assert(after.waiting[key].drop_last() =~= d.waiting[key]);
    }
}

/// Walking away from a prompt changes no rule: it is treated as a deny for that
/// packet and nothing more.
pub proof fn lemma_timeouts_change_no_rule(
    d: DaemonView,
    exe: Option<Seq<char>>,
    host: Option<Seq<char>>,
    dst: IpAddr,
    dport: u16,
    hash: Option<Seq<char>>,
)
    ensures
        after_answer(d, Answer::Timeout, exe, host, dst, dport, hash).pol == d.pol,
        answer_in(None) == Answer::Timeout,
{
}

/// Once the lines that an approval calls for are in the file, the file says what
/// the daemon believes: reading it again changes nothing.
pub proof fn lemma_approval_then_load(
    d: DaemonView,
    text: Seq<char>,
    ans: Answer,
    exe: Seq<char>,
    host: Option<Seq<char>>,
    dst: IpAddr,
    dport: u16,
    hash: Seq<char>,
)
    requires
        loaded(text) == d.pol,
        approves(ans),
        is_recordable(Some(exe), named(host)),
        is_word(hash),
    ensures
        loaded(
            appended(
                appended(text, identity_line(exe, hash)),
                recorded_line(ans, Some(exe), dst, host, dport, Origin::Approved)->0,
            ),
        ) == after_answer(d, ans, Some(exe), host, dst, dport, Some(hash)).pol,
{
    lemma_identity_then_load(text, exe, hash);
    lemma_record_then_load(
        appended(text, identity_line(exe, hash)),
        ans,
        Some(exe),
        dst,
        host,
        dport,
        Origin::Approved,
    );
    assert(d.pol.app_id.remove(exe).insert(exe, lowercase(hash)) =~= d.pol.app_id.insert(
        exe,
        lowercase(hash),
    ));
}

/// Approving a changed binary ends the complaint: the hash it has now is the one
/// on record.
pub proof fn lemma_approval_pins_the_binary(
    d: DaemonView,
    ans: Answer,
    exe: Seq<char>,
    host: Option<Seq<char>>,
    dst: IpAddr,
    dport: u16,
    hash: Seq<char>,
)
    requires
        approves(ans),
        lowercase(hash) == hash,
    ensures
        ({
            let after = after_answer(d, ans, Some(exe), host, dst, dport, Some(hash));
            &&& after.pol.app_id.contains_key(exe)
            &&& after.pol.app_id[exe] == hash
            &&& !is_changed(after.pol, Some(exe), Some(hash))
            &&& !after.warned.contains(exe)
        }),
{
}

} // verus!
