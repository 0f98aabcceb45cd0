//! What holds of every policy.
use crate::addr::{
    ip_of, ip_text, is_addr_char, is_v6, lemma_colon_is_not_v4, lemma_ip_chars, lemma_ip_round_trip,
    IpAddr,
};
use crate::line::{
    entry_line, is_value, is_word, lemma_cr_says_nothing, lemma_entry_back, lemma_scoped_back,
    lemma_word_is_value,
};
use crate::number::{all_digits, dec, is_digit, lemma_digits_value};
use crate::pattern::{any_covers, covers, name_covers, Conn, PatternView};
use crate::platform::{ascii_lower_char, lowercase};
use crate::policy::{
    after_lines, applied, chosen, complaints_in, directive, identity_line, initial, loaded, named,
    narrowest, recorded_line, recorded_note, recorded_value, scope_of, seen_conn, verdict,
    with_rule, ComplaintView, DirectiveView, PolicyView,
};
use crate::target::{is_spellable, lemma_target_round_trip, target_of, target_text};
use crate::text::{
    appended, closed, ends_with, find, holds, is_closed, is_line, is_piece, is_white, joined, just,
    lemma_closed_lines, lemma_find, lemma_find_is, lemma_pieces, lemma_pieces_append,
    lemma_pieces_joined, lines, lines_in, pieces, strip_cr, white,
};
use crate::words::{
    is_plain, kind_of, kind_text, lemma_kind_back, Answer, Effect, Origin, Scope, Verdict,
};
use vstd::prelude::*;
use vstd::utf8::is_ascii_chars;

verus! {

// ---------------------------------------------------------------------------
// Verdicts.
// ---------------------------------------------------------------------------

/// Without a policy file every connection is asked about.
pub proof fn lemma_no_file_asks(c: Conn)
    ensures
        loaded(Seq::empty()) == initial(),
        verdict(loaded(Seq::empty()), c) == Verdict::Ask,
{
    assert(lines(Seq::<char>::empty()) =~= Seq::<Seq<char>>::empty());
}

/// A deny that covers a connection wins over every allow, however narrow the
/// allow is and however broad the deny.
pub proof fn lemma_deny_wins(p: PolicyView, deny: PatternView, c: Conn)
    requires
        p.deny.contains(deny),
        covers(deny, c),
    ensures
        verdict(p, c) == Verdict::Deny,
{
}

/// A connection is allowed only if an allow rule or the default says so and no
/// deny rule objects.
pub proof fn lemma_allowed_only_if(p: PolicyView, c: Conn)
    ensures
        verdict(p, c) == Verdict::Allow <==> !any_covers(p.deny, c) && (any_covers(p.allow, c)
            || p.default == Verdict::Allow),
{
}

/// A rule changes nothing about the connections it does not cover.
pub proof fn lemma_rule_is_local(p: PolicyView, effect: Effect, pattern: PatternView, c: Conn)
    requires
        !covers(pattern, c),
    ensures
        verdict(with_rule(p, effect, pattern), c) == verdict(p, c),
{
    let q = with_rule(p, effect, pattern);
    assert forall|x: PatternView| q.allow.contains(x) && covers(x, c) implies p.allow.contains(
        x,
    ) by {}
    assert forall|x: PatternView| q.deny.contains(x) && covers(x, c) implies p.deny.contains(
        x,
    ) by {}
    assert(any_covers(q.allow, c) == any_covers(p.allow, c)) by {
        if any_covers(p.allow, c) {
            let x = choose|x: PatternView| p.allow.contains(x) && #[trigger] covers(x, c);
            assert(q.allow.contains(x));
        }
    }
    assert(any_covers(q.deny, c) == any_covers(p.deny, c)) by {
        if any_covers(p.deny, c) {
            let x = choose|x: PatternView| p.deny.contains(x) && #[trigger] covers(x, c);
            assert(q.deny.contains(x));
        }
    }
}

/// No allow rule, whenever it is added, lifts a deny.
pub proof fn lemma_allow_lifts_no_deny(p: PolicyView, pattern: PatternView, c: Conn)
    requires
        any_covers(p.deny, c),
    ensures
        verdict(with_rule(p, Effect::Allow, pattern), c) == Verdict::Deny,
{
}

/// The port a pattern insists on.
pub open spec fn port_in(p: PatternView) -> Option<u16> {
    match p {
        PatternView::App(_) => None,
        PatternView::Host(_, port) => port,
        PatternView::Dest(_, port) => port,
        PatternView::HostFrom(_, _, port) => port,
        PatternView::DestFrom(_, _, port) => port,
    }
}

/// The binary a pattern insists on.
pub open spec fn binary_in(p: PatternView) -> Option<Seq<char>> {
    match p {
        PatternView::App(e) => Some(e),
        PatternView::Host(..) => None,
        PatternView::Dest(..) => None,
        PatternView::HostFrom(e, _, _) => Some(e),
        PatternView::DestFrom(e, _, _) => Some(e),
    }
}

/// A rule without a port covers a connection on one port exactly when it covers
/// it on every port.
pub proof fn lemma_no_port_is_any_port(p: PatternView, c: Conn, other: u16)
    requires
        port_in(p) is None,
    ensures
        covers(p, c) == covers(p, Conn { dport: other, ..c }),
{
}

/// A rule with a port covers no connection on another port.
pub proof fn lemma_port_is_kept(p: PatternView, port: u16, c: Conn)
    requires
        port_in(p) == Some(port),
        c.dport != port,
    ensures
        !covers(p, c),
{
}

/// A rule for one binary covers neither another binary nor a connection whose
/// binary is not known.
pub proof fn lemma_scope_is_kept(p: PatternView, exe: Seq<char>, c: Conn)
    requires
        binary_in(p) == Some(exe),
        c.exe != Some(exe),
    ensures
        !covers(p, c),
{
}

/// A rule for one binary covers what the same rule for every binary covers, as
/// far as that binary goes: names, wildcards, addresses and ports mean the same
/// in both.
pub proof fn lemma_scoped_is_narrowed(
    exe: Seq<char>,
    name: Seq<char>,
    a: IpAddr,
    port: Option<u16>,
    c: Conn,
)
    ensures
        covers(PatternView::HostFrom(exe, name, port), c) <==> c.exe == Some(exe) && covers(
            PatternView::Host(name, port),
            c,
        ),
        covers(PatternView::DestFrom(exe, a, port), c) <==> c.exe == Some(exe) && covers(
            PatternView::Dest(a, port),
            c,
        ),
{
}

/// `*.domain` covers the domain itself, everything below it, and nothing else.
pub proof fn lemma_wildcard(domain: Seq<char>, host: Seq<char>)
    ensures
        name_covers(seq!['*', '.'] + domain, host) <==> host == domain || host == seq!['*', '.']
            + domain || ends_with(host, seq!['.'] + domain),
{
    let rule = seq!['*', '.'] + domain;
    assert(rule.skip(2) =~= domain);
    assert(rule.skip(1) =~= seq!['.'] + domain);
}

// ---------------------------------------------------------------------------
// Answers.
// ---------------------------------------------------------------------------

/// The policy after an answer.
pub open spec fn answered(
    p: PolicyView,
    ans: Answer,
    exe: Option<Seq<char>>,
    dst: IpAddr,
    host: Option<Seq<char>>,
    dport: u16,
) -> PolicyView {
    match chosen(ans, exe, dst, host, dport) {
        Some((effect, pattern)) => with_rule(p, effect, pattern),
        None => p,
    }
}

/// The rule an answer makes covers the connection it was given for.
pub proof fn lemma_chosen_covers(
    ans: Answer,
    exe: Option<Seq<char>>,
    dst: IpAddr,
    host: Option<Seq<char>>,
    dport: u16,
)
    ensures
        chosen(ans, exe, dst, host, dport) matches Some((_, pattern)) ==> covers(
            pattern,
            seen_conn(exe, dst, host, dport),
        ),
{
}

/// Blocking a connection denies it from then on, whatever was approved before.
pub proof fn lemma_block_denies(
    p: PolicyView,
    exe: Option<Seq<char>>,
    dst: IpAddr,
    host: Option<Seq<char>>,
    dport: u16,
)
    ensures
        verdict(
            answered(p, Answer::Block, exe, dst, host, dport),
            seen_conn(exe, dst, host, dport),
        ) == Verdict::Deny,
        exe is Some ==> verdict(
            answered(p, Answer::BlockApp, exe, dst, host, dport),
            seen_conn(exe, dst, host, dport),
        ) == Verdict::Deny,
{
    let c = seen_conn(exe, dst, host, dport);
    lemma_chosen_covers(Answer::Block, exe, dst, host, dport);
    lemma_chosen_covers(Answer::BlockApp, exe, dst, host, dport);
    let x = narrowest(exe, dst, named(host), dport);
    assert(answered(p, Answer::Block, exe, dst, host, dport).deny.contains(x) && covers(x, c));
    if let Some(e) = exe {
        let y = PatternView::App(e);
        assert(answered(p, Answer::BlockApp, exe, dst, host, dport).deny.contains(y) && covers(
            y,
            c,
        ));
    }
}

/// Approving a connection allows it from then on, unless a deny rule objects.
pub proof fn lemma_approval_allows(
    p: PolicyView,
    exe: Option<Seq<char>>,
    dst: IpAddr,
    host: Option<Seq<char>>,
    dport: u16,
)
    requires
        !any_covers(p.deny, seen_conn(exe, dst, host, dport)),
    ensures
        verdict(
            answered(p, Answer::AllowConn, exe, dst, host, dport),
            seen_conn(exe, dst, host, dport),
        ) == Verdict::Allow,
        exe is Some ==> verdict(
            answered(p, Answer::AllowApp, exe, dst, host, dport),
            seen_conn(exe, dst, host, dport),
        ) == Verdict::Allow,
{
    let c = seen_conn(exe, dst, host, dport);
    lemma_chosen_covers(Answer::AllowConn, exe, dst, host, dport);
    lemma_chosen_covers(Answer::AllowApp, exe, dst, host, dport);
    let x = narrowest(exe, dst, named(host), dport);
    assert(answered(p, Answer::AllowConn, exe, dst, host, dport).allow.contains(x) && covers(x, c));
    if let Some(e) = exe {
        let y = PatternView::App(e);
        assert(answered(p, Answer::AllowApp, exe, dst, host, dport).allow.contains(y) && covers(
            y,
            c,
        ));
    }
}

/// An answer about one connection of a known binary leaves every other binary,
/// and every other port, as it was.
pub proof fn lemma_answer_is_narrow(
    p: PolicyView,
    ans: Answer,
    exe: Seq<char>,
    dst: IpAddr,
    host: Option<Seq<char>>,
    dport: u16,
    c: Conn,
)
    requires
        ans == Answer::AllowConn || ans == Answer::Block,
        c.exe != Some(exe) || c.dport != dport,
    ensures
        verdict(answered(p, ans, Some(exe), dst, host, dport), c) == verdict(p, c),
{
    let (effect, pattern) = chosen(ans, Some(exe), dst, host, dport)->0;
    lemma_rule_is_local(p, effect, pattern, c);
}

/// Does this name stand for others too?
pub open spec fn is_wild(name: Seq<char>) -> bool {
    name.len() >= 2 && name[0] == '*' && name[1] == '.'
}

/// An ASCII name without a star stands for itself alone.
pub proof fn lemma_plain_names_are_not_wild(h: Seq<char>)
    requires
        is_ascii_chars(h),
        !holds(h, just('*')),
    ensures
        !is_wild(lowercase(h)),
{
    if h.len() > 0 {
        assert(!just('*')(h[0]));
        assert(lowercase(h)[0] == ascii_lower_char(h[0]));
    }
}

/// An answer changes the verdict on no connection but those that its rule covers,
/// and on those only to what it says: what was denied stays denied.
pub proof fn lemma_answer_changes_what_it_covers(
    p: PolicyView,
    ans: Answer,
    exe: Option<Seq<char>>,
    dst: IpAddr,
    host: Option<Seq<char>>,
    dport: u16,
    c: Conn,
)
    requires
        verdict(answered(p, ans, exe, dst, host, dport), c) != verdict(p, c),
    ensures
        chosen(ans, exe, dst, host, dport) matches Some((effect, pattern)) && covers(pattern, c)
            && verdict(answered(p, ans, exe, dst, host, dport), c) == (if effect == Effect::Allow {
            Verdict::Allow
        } else {
            Verdict::Deny
        }),
        chosen(ans, exe, dst, host, dport) matches Some((effect, _)) && effect == Effect::Allow
            ==> verdict(p, c) != Verdict::Deny || !any_covers(p.deny, c),
{
    let (effect, pattern) = chosen(ans, exe, dst, host, dport)->0;
    let after = with_rule(p, effect, pattern);
    if !covers(pattern, c) {
        lemma_rule_is_local(p, effect, pattern, c);
    }
    match effect {
        Effect::Allow => {
            assert(after.allow.contains(pattern) && covers(pattern, c));
            assert(after.deny == p.deny);
        },
        Effect::Deny => {
            assert(after.deny.contains(pattern) && covers(pattern, c));
        },
    }
}

/// Approving a connection by its name opens what this name covers, at any address,
/// to this binary alone and on this port alone; and no deny is undone. A name that
/// is no wildcard covers itself alone.
pub proof fn lemma_approval_opens_one_name(
    p: PolicyView,
    exe: Seq<char>,
    dst: IpAddr,
    host: Seq<char>,
    dport: u16,
    c: Conn,
)
    requires
        named(Some(host)) is Some,
        verdict(answered(p, Answer::AllowConn, Some(exe), dst, Some(host), dport), c) != verdict(
            p,
            c,
        ),
    ensures
        c.exe == Some(exe),
        c.dport == dport,
        c.host matches Some(h) && name_covers(lowercase(host), h),
        !is_wild(lowercase(host)) ==> c.host == Some(lowercase(host)),
        verdict(answered(p, Answer::AllowConn, Some(exe), dst, Some(host), dport), c)
            == Verdict::Allow,
        !any_covers(p.deny, c),
{
    lemma_answer_changes_what_it_covers(
        p,
        Answer::AllowConn,
        Some(exe),
        dst,
        Some(host),
        dport,
        c,
    );
    let after = answered(p, Answer::AllowConn, Some(exe), dst, Some(host), dport);
    assert(after.deny == p.deny);
}

/// Walking away from a prompt changes nothing, and neither does an answer about
/// an application that is not known.
pub proof fn lemma_no_answer_no_rule(
    p: PolicyView,
    ans: Answer,
    exe: Option<Seq<char>>,
    dst: IpAddr,
    host: Option<Seq<char>>,
    dport: u16,
    origin: Origin,
)
    requires
        ans == Answer::Timeout || exe is None && (ans == Answer::AllowApp || ans
            == Answer::BlockApp),
    ensures
        answered(p, ans, exe, dst, host, dport) == p,
        recorded_line(ans, exe, dst, host, dport, origin) is None,
{
}

/// Every answer about a connection writes a rule, whether or not the binary is
/// known.
pub proof fn lemma_connection_answers_write(
    ans: Answer,
    exe: Option<Seq<char>>,
    dst: IpAddr,
    host: Option<Seq<char>>,
    dport: u16,
    origin: Origin,
)
    requires
        ans == Answer::AllowConn || ans == Answer::Block,
    ensures
        recorded_line(ans, exe, dst, host, dport, origin) is Some,
{
}

// ---------------------------------------------------------------------------
// What the lines of a file amount to.
// ---------------------------------------------------------------------------

/// Does some line ask for this?
pub open spec fn says(ls: Seq<Seq<char>>, d: DirectiveView) -> bool {
    exists|i: int| 0 <= i < ls.len() && directive(#[trigger] ls[i]) == d
}

/// Does this ask for nothing: a blank line, a comment, or a line that is not
/// understood?
pub open spec fn is_silent(d: DirectiveView) -> bool {
    d is Nothing || d is Unclear
}

/// What some lines ask for besides rules, in their order.
pub open spec fn settings_in(ls: Seq<Seq<char>>) -> Seq<DirectiveView>
    decreases ls.len(),
{
    if ls.len() == 0 {
        Seq::empty()
    } else {
        let before = settings_in(ls.drop_last());
        let d = directive(ls.last());
        if d is Rule || is_silent(d) {
            before
        } else {
            before.push(d)
        }
    }
}

/// The policy that some directives describe.
pub open spec fn after_directives(ds: Seq<DirectiveView>) -> PolicyView
    decreases ds.len(),
{
    if ds.len() == 0 {
        initial()
    } else {
        applied(after_directives(ds.drop_last()), ds.last())
    }
}

/// A policy without its rules.
pub open spec fn without_rules(p: PolicyView) -> PolicyView {
    PolicyView { allow: Set::empty(), deny: Set::empty(), ..p }
}

proof fn lemma_says_push(ls: Seq<Seq<char>>, d: DirectiveView)
    requires
        ls.len() > 0,
    ensures
        says(ls, d) <==> says(ls.drop_last(), d) || directive(ls.last()) == d,
{
    let h = ls.drop_last();
    if says(h, d) {
        let i = choose|i: int| 0 <= i < h.len() && directive(#[trigger] h[i]) == d;
        assert(ls[i] == h[i]);
    }
    if directive(ls.last()) == d {
        assert(directive(ls[ls.len() - 1]) == d);
    }
    if says(ls, d) && directive(ls.last()) != d {
        let i = choose|i: int| 0 <= i < ls.len() && directive(#[trigger] ls[i]) == d;
        assert(h[i] == ls[i]);
    }
}

/// The rules of a file are exactly those that its lines ask for, and its settings
/// are what its other lines make of them, one after the other.
pub proof fn lemma_lines_by_parts(ls: Seq<Seq<char>>)
    ensures
        forall|p: PatternView| #[trigger]
            after_lines(ls).allow.contains(p) <==> says(
                ls,
                DirectiveView::Rule(Effect::Allow, p),
            ),
        forall|p: PatternView| #[trigger]
            after_lines(ls).deny.contains(p) <==> says(ls, DirectiveView::Rule(Effect::Deny, p)),
        without_rules(after_lines(ls)) == after_directives(settings_in(ls)),
    decreases ls.len(),
{
    if ls.len() == 0 {
        assert(without_rules(initial()) =~= initial());
    } else {
        let h = ls.drop_last();
        let d = directive(ls.last());
        lemma_lines_by_parts(h);
        assert forall|p: PatternView| #[trigger]
            after_lines(ls).allow.contains(p) <==> says(
                ls,
                DirectiveView::Rule(Effect::Allow, p),
            ) by {
            lemma_says_push(ls, DirectiveView::Rule(Effect::Allow, p));
            assert(after_lines(h).allow.contains(p) <==> says(
                h,
                DirectiveView::Rule(Effect::Allow, p),
            ));
        }
        assert forall|p: PatternView| #[trigger]
            after_lines(ls).deny.contains(p) <==> says(
                ls,
                DirectiveView::Rule(Effect::Deny, p),
            ) by {
            lemma_says_push(ls, DirectiveView::Rule(Effect::Deny, p));
            assert(after_lines(h).deny.contains(p) <==> says(
                h,
                DirectiveView::Rule(Effect::Deny, p),
            ));
        }
        if d is Rule || is_silent(d) {
            assert(without_rules(after_lines(ls)) =~= without_rules(after_lines(h)));
        } else {
            let before = settings_in(h);
            assert(before.push(d).drop_last() =~= before);
            assert(before.push(d).last() == d);
            assert(without_rules(applied(after_lines(h), d)) =~= applied(
                without_rules(after_lines(h)),
                d,
            ));
        }
    }
}

/// The order and the number of the lines that ask for a rule do not matter: two
/// files that ask for the same rules, and for the same settings in the same order,
/// are the same policy and decide alike about every connection.
pub proof fn lemma_rule_order_is_free(a: Seq<char>, b: Seq<char>)
    requires
        forall|effect: Effect, p: PatternView|
            #[trigger] says(lines(a), DirectiveView::Rule(effect, p)) == says(
                lines(b),
                DirectiveView::Rule(effect, p),
            ),
        settings_in(lines(a)) == settings_in(lines(b)),
    ensures
        loaded(a) == loaded(b),
        forall|c: Conn| #[trigger] verdict(loaded(a), c) == verdict(loaded(b), c),
{
    lemma_lines_by_parts(lines(a));
    lemma_lines_by_parts(lines(b));
    let p = loaded(a);
    let q = loaded(b);
    assert forall|x: PatternView| p.allow.contains(x) <==> q.allow.contains(x) by {
        let d = DirectiveView::Rule(Effect::Allow, x);
        assert(says(lines(a), d) == says(lines(b), d));
    }
    assert forall|x: PatternView| p.deny.contains(x) <==> q.deny.contains(x) by {
        let d = DirectiveView::Rule(Effect::Deny, x);
        assert(says(lines(a), d) == says(lines(b), d));
    }
    assert(p.allow =~= q.allow);
    assert(p.deny =~= q.deny);
    assert(without_rules(p) == without_rules(q));
    assert(p.default == without_rules(p).default && q.default == without_rules(q).default);
    assert(p.prompt == without_rules(p).prompt && q.prompt == without_rules(q).prompt);
    assert(p.app_id == without_rules(p).app_id && q.app_id == without_rules(q).app_id);
    assert(p.mode == without_rules(p).mode && q.mode == without_rules(q).mode);
    assert(p.attribution == without_rules(p).attribution && q.attribution == without_rules(
        q,
    ).attribution);
}

/// A comment changes nothing that a line asks for.
pub proof fn lemma_comments_say_nothing(line: Seq<char>, note: Seq<char>)
    ensures
        directive(line + seq!['#'] + note) == directive(line),
{
    let all = line + seq!['#'] + note;
    let hash = just('#');
    lemma_find(line, hash);
    let i = find(line, hash);
    assert forall|j: int| 0 <= j < i implies !hash(#[trigger] all[j]) by {
        assert(all[j] == line[j]);
    }
    assert(hash(all[i])) by {
        if i < line.len() {
            assert(all[i] == line[i]);
        }
    }
    lemma_find_is(all, hash, i);
    assert(all.take(i) =~= line.take(i));
}

proof fn lemma_last_line(ls: Seq<Seq<char>>)
    requires
        ls.len() > 0,
    ensures
        after_lines(ls) == applied(after_lines(ls.drop_last()), directive(ls.last())),
{
}

proof fn lemma_silence(p: PolicyView, d: DirectiveView)
    requires
        is_silent(d),
    ensures
        applied(p, d) == p,
{
}

#[verifier::spinoff_prover]
#[verifier::rlimit(40)]
proof fn lemma_silent_lines_go(ls: Seq<Seq<char>>, i: int)
    requires
        0 <= i < ls.len(),
        is_silent(directive(ls[i])),
    ensures
        after_lines(ls.remove(i)) == after_lines(ls),
    decreases ls.len(),
{
    let h = ls.drop_last();
    lemma_last_line(ls);
    if i == ls.len() - 1 {
        lemma_silence(after_lines(h), directive(ls[i]));
        assert(ls.remove(i) =~= h);
    } else {
        assert(h[i] == ls[i]);
        lemma_silent_lines_go(h, i);
        lemma_last_line(ls.remove(i));
        assert(ls.remove(i).drop_last() =~= h.remove(i));
        assert(ls.remove(i).last() == ls.last());
    }
}

/// A line that asks for nothing can be taken out of a file, with its ending, and
/// what the file says stays the same.
pub proof fn lemma_silent_line_can_go(text: Seq<char>, i: int)
    requires
        0 <= i < lines(text).len(),
        is_silent(directive(lines(text)[i])),
    ensures
        lines(joined(pieces(text).remove(i))) == lines(text).remove(i),
        loaded(joined(pieces(text).remove(i))) == loaded(text),
{
    lemma_pieces(text);
    let ps = pieces(text);
    assert(lines(text).len() == lines_in(ps).len());
    let rest = ps.remove(i);
    assert forall|j: int| 0 <= j < rest.len() implies is_piece(#[trigger] rest[j]) && (j
        < rest.len() - 1 ==> rest[j].last() == '\n') by {
        if j < i {
            assert(rest[j] == ps[j]);
        } else {
            assert(rest[j] == ps[j + 1]);
        }
    }
    lemma_pieces_joined(rest);
    assert(lines_in(rest) =~= lines_in(ps).remove(i));
    lemma_silent_lines_go(lines(text), i);
}

/// A complaint names the number of a line that is not understood, and every such
/// line is complained about.
pub proof fn lemma_complaints_are_complete(ls: Seq<Seq<char>>, n: int, c: ComplaintView)
    ensures
        complaints_in(ls).contains((n, c)) <==> 1 <= n <= ls.len() && directive(ls[n - 1])
            == DirectiveView::Unclear(c),
    decreases ls.len(),
{
    if ls.len() > 0 {
        let h = ls.drop_last();
        lemma_complaints_are_complete(h, n, c);
        if 1 <= n < ls.len() {
            assert(h[n - 1] == ls[n - 1]);
        }
        let before = complaints_in(h);
        if let DirectiveView::Unclear(x) = directive(ls.last()) {
            let last = (ls.len() as int, x);
            assert(before.push(last).contains((n, c)) <==> before.contains((n, c)) || last == (
                n,
                c,
            )) by {
                if before.contains((n, c)) {
                    let k = choose|k: int| 0 <= k < before.len() && before[k] == (n, c);
                    assert(before.push(last)[k] == (n, c));
                }
                assert(before.push(last)[before.len() as int] == last);
            }
        }
    }
}

/// A line that is complained about has no effect: with it or without it a file
/// says the same, and decides alike about every connection.
pub proof fn lemma_complaints_change_nothing(text: Seq<char>, n: int, c: ComplaintView)
    requires
        complaints_in(lines(text)).contains((n, c)),
    ensures
        1 <= n <= pieces(text).len(),
        loaded(joined(pieces(text).remove(n - 1))) == loaded(text),
        forall|x: Conn| #[trigger]
            verdict(loaded(joined(pieces(text).remove(n - 1))), x) == verdict(loaded(text), x),
{
    lemma_complaints_are_complete(lines(text), n, c);
    lemma_silent_line_can_go(text, n - 1);
    lemma_pieces(text);
    assert(lines(text).len() == lines_in(pieces(text)).len());
}

// ---------------------------------------------------------------------------
// The file says what the daemon believes.
// ---------------------------------------------------------------------------

/// Ending the last line of a file changes nothing that it says.
pub proof fn lemma_closed_says_the_same(text: Seq<char>)
    ensures
        loaded(closed(text)) == loaded(text),
{
    lemma_closed_lines(text);
    if !is_closed(text) {
        let ls = lines(text);
        let h = ls.drop_last();
        let l = strip_cr(ls.last());
        lemma_cr_says_nothing(ls.last());
        assert(h.push(l).drop_last() =~= h);
        assert(directive(l) == directive(ls.last()));
    }
}

/// Appending a line to a file applies that line to what was loaded, also where the
/// last line of the file was not ended.
pub proof fn lemma_load_append(text: Seq<char>, line: Seq<char>)
    requires
        !holds(line, just('\n')),
    ensures
        loaded(appended(text, line)) == applied(loaded(text), directive(line)),
{
    lemma_closed_says_the_same(text);
    lemma_pieces_append(text, line);
    lemma_cr_says_nothing(line);
    let ls = lines(closed(text));
    assert(ls.push(strip_cr(line)).drop_last() =~= ls);
    assert(directive(strip_cr(line)) == directive(line));
}

/// An address is a word that a rule can spell, and reads back as itself.
pub proof fn lemma_ip_is_spellable(a: IpAddr)
    ensures
        ip_of(ip_text(a)) == Some(a),
        is_word(ip_text(a)),
        is_spellable(ip_text(a)),
{
    let s = ip_text(a);
    lemma_ip_round_trip(a);
    lemma_ip_chars(s);
    assert forall|i: int| 0 <= i < s.len() implies !white()(#[trigger] s[i]) && !just('#')(s[i]) by {
        assert(is_addr_char(s[i]));
    }
    assert(is_addr_char(s[0]) && is_addr_char(s[s.len() - 1]));
    if holds(s, just(':')) {
        lemma_colon_is_not_v4(s);
    }
}

/// An address without brackets is an address on any port, whatever colons it
/// holds.
pub proof fn lemma_bare_address_has_no_port(a: IpAddr)
    ensures
        target_of(ip_text(a)) == (ip_text(a), None::<u16>),
{
    lemma_ip_is_spellable(a);
    lemma_target_round_trip(ip_text(a), None);
}

/// A word with a port after it is still a word.
pub proof fn lemma_target_is_word(host: Seq<char>, port: Option<u16>)
    requires
        is_word(host),
    ensures
        is_word(target_text(host, port)),
{
    if let Some(p) = port {
        let s = target_text(host, port);
        let d = dec(p as nat);
        lemma_digits_value(p as nat, 10);
        assert(all_digits(d, 10));
        assert forall|i: int| 0 <= i < s.len() implies !white()(#[trigger] s[i]) && !just('#')(
            s[i],
        ) by {
            let at: int = if is_v6(host) {
                1
            } else {
                0
            };
            let tail: int = if is_v6(host) {
                2
            } else {
                1
            };
            if i < at {
            } else if i < at + host.len() {
                assert(s[i] == host[i - at]);
                assert(!white()(host[i - at]) && !just('#')(host[i - at]));
            } else if i < at + host.len() + tail {
            } else {
                assert(s[i] == d[i - at - host.len() - tail]);
                assert(is_digit(d[i - at - host.len() - tail], 10));
            }
        }
    }
}

/// What a recorded line needs of its parts to read back: a binary without white
/// space around it, and a name that a rule can spell.
pub open spec fn is_recordable(exe: Option<Seq<char>>, name: Option<Seq<char>>) -> bool {
    &&& exe matches Some(e) ==> is_value(e)
    &&& name matches Some(h) ==> is_word(h) && is_spellable(h)
}

/// What is a plain word is a word.
pub proof fn lemma_plain_is_word(w: Seq<char>)
    requires
        is_plain(w),
    ensures
        is_word(w),
{
    assert forall|i: int| 0 <= i < w.len() implies !white()(#[trigger] w[i]) && !just('#')(w[i]) by {
        assert('a' <= w[i] <= 'z' || w[i] == '-');
    }
}

proof fn lemma_no_feed_concat(a: Seq<char>, b: Seq<char>)
    requires
        !holds(a, just('\n')),
        !holds(b, just('\n')),
    ensures
        !holds(a + b, just('\n')),
{
    assert forall|i: int| 0 <= i < (a + b).len() implies !just('\n')(#[trigger] (a + b)[i]) by {
        if i < a.len() {
            assert(!just('\n')(a[i]));
        } else {
            assert(!just('\n')(b[i - a.len()]));
        }
    }
}

proof fn lemma_note_is_line(effect: Effect, scope: Scope, origin: Origin, exe: Option<Seq<char>>)
    requires
        exe matches Some(e) ==> is_value(e),
    ensures
        recorded_note(effect, scope, origin, exe) matches Some(n) ==> n.len() > 0 && is_line(n),
{
    let who = match exe {
        Some(e) => e,
        None => "unknown"@,
    };
    reveal_strlit("unknown");
    assert(is_line(who) && who.len() > 0) by {
        if let Some(e) = exe {
            assert(!is_white(e[e.len() - 1]));
        }
    }
    reveal_strlit("approved for");
    reveal_strlit("learned from");
    reveal_strlit("no hostname seen; ");
    let intro = origin.introduction() + seq![' '];
    assert(!holds(intro, just('\n')));
    assert(!holds("no hostname seen; "@, just('\n')));
    lemma_no_feed_concat(intro, who);
    lemma_no_feed_concat("no hostname seen; "@, origin.introduction());
    lemma_no_feed_concat("no hostname seen; "@ + origin.introduction(), seq![' ']);
    lemma_no_feed_concat("no hostname seen; "@ + origin.introduction() + seq![' '], who);
    lemma_plain_notes(origin);
    if let Some(n) = recorded_note(effect, scope, origin, exe) {
        if effect == Effect::Allow && (scope == Scope::HostFrom || scope == Scope::DestFrom) {
            assert(n.last() == who.last());
        }
    }
}

proof fn lemma_plain_notes(origin: Origin)
    ensures
        is_line(origin.note() + "; unattributed connection"@),
        is_line(origin.note() + "; unattributed, no hostname seen"@),
        is_line("every destination"@),
        is_line("blocked for this app only"@),
        is_line("no hostname seen; blocked for this app only"@),
        is_line("unattributed connection; blocked for every application"@),
        is_line("unattributed, no hostname seen; blocked for every application"@),
        "; unattributed connection"@.len() > 0,
        "; unattributed, no hostname seen"@.len() > 0,
        "every destination"@.len() > 0,
        "blocked for this app only"@.len() > 0,
        "no hostname seen; blocked for this app only"@.len() > 0,
        "unattributed connection; blocked for every application"@.len() > 0,
        "unattributed, no hostname seen; blocked for every application"@.len() > 0,
{
    reveal_strlit("approved");
    reveal_strlit("learned");
    reveal_strlit("; unattributed connection");
    reveal_strlit("; unattributed, no hostname seen");
    reveal_strlit("every destination");
    reveal_strlit("blocked for this app only");
    reveal_strlit("no hostname seen; blocked for this app only");
    reveal_strlit("unattributed connection; blocked for every application");
    reveal_strlit("unattributed, no hostname seen; blocked for every application");
    assert(!holds(origin.note(), just('\n')));
    assert(!holds("; unattributed connection"@, just('\n')));
    assert(!holds("; unattributed, no hostname seen"@, just('\n')));
    lemma_no_feed_concat(origin.note(), "; unattributed connection"@);
    lemma_no_feed_concat(origin.note(), "; unattributed, no hostname seen"@);
}

/// A written entry holds no line feed, and is a line if its note is one.
pub proof fn lemma_entry_is_line(k: Seq<char>, v: Seq<char>, note: Option<Seq<char>>)
    requires
        is_word(k),
        is_value(v),
        note matches Some(n) ==> !holds(n, just('\n')),
    ensures
        !holds(entry_line(k, v, note), just('\n')),
        (note matches Some(n) ==> is_line(n)) ==> is_line(entry_line(k, v, note)),
{
    lemma_word_is_value(k);
    assert(!holds(seq![' '], just('\n')));
    lemma_no_feed_concat(k, seq![' ']);
    lemma_no_feed_concat(k + seq![' '], v);
    assert(!is_white(v[v.len() - 1]));
    if let Some(n) = note {
        let head = k + seq![' '] + v + seq!['\t', '#', ' '];
        assert(!holds(seq!['\t', '#', ' '], just('\n')));
        lemma_no_feed_concat(k + seq![' '] + v, seq!['\t', '#', ' ']);
        lemma_no_feed_concat(head, n);
        if n.len() > 0 {
            assert(entry_line(k, v, note).last() == n.last());
        } else {
            assert(entry_line(k, v, note) =~= head);
            assert(head.last() == ' ');
        }
    } else {
        assert(entry_line(k, v, note).last() == v.last());
    }
}

/// The line that an answer writes means, when it is read back, the rule that the
/// answer made.
pub proof fn lemma_recorded_line_means(
    ans: Answer,
    exe: Option<Seq<char>>,
    dst: IpAddr,
    host: Option<Seq<char>>,
    dport: u16,
    origin: Origin,
)
    requires
        is_recordable(exe, named(host)),
        chosen(ans, exe, dst, host, dport) is Some,
    ensures
        ({
            let line = recorded_line(ans, exe, dst, host, dport, origin)->0;
            let (effect, pattern) = chosen(ans, exe, dst, host, dport)->0;
            &&& directive(line) == DirectiveView::Rule(effect, pattern)
            &&& is_line(line)
        }),
{
    let (effect, pattern) = chosen(ans, exe, dst, host, dport)->0;
    let scope = scope_of(pattern);
    let k = kind_text(effect, scope);
    let note = recorded_note(effect, scope, origin, exe);
    lemma_kind_back(effect, scope);
    lemma_plain_is_word(k);
    lemma_note_is_line(effect, scope, origin, exe);
    let value = match pattern {
        PatternView::App(e) => e,
        _ => recorded_value(exe, dst, named(host), dport),
    };
    let name = match named(host) {
        Some(h) => h,
        None => ip_text(dst),
    };
    lemma_ip_is_spellable(dst);
    let target = target_text(name, Some(dport));
    lemma_target_is_word(name, Some(dport));
    lemma_target_round_trip(name, Some(dport));
    lemma_word_is_value(target);
    if let Some(e) = exe {
        lemma_scoped_back(target, '\t', e);
    }
    assert(is_value(value));
    lemma_entry_back(k, value, note);
    lemma_entry_is_line(k, value, note);
    assert((k + seq![' '] + value).len() > 0);
}

/// Recording an answer and loading the file afterwards give the same policy:
/// what the daemon believes is what the file says, whatever the file was before.
pub proof fn lemma_record_then_load(
    text: Seq<char>,
    ans: Answer,
    exe: Option<Seq<char>>,
    dst: IpAddr,
    host: Option<Seq<char>>,
    dport: u16,
    origin: Origin,
)
    requires
        is_recordable(exe, named(host)),
        chosen(ans, exe, dst, host, dport) is Some,
    ensures
        loaded(appended(text, recorded_line(ans, exe, dst, host, dport, origin)->0)) == answered(
            loaded(text),
            ans,
            exe,
            dst,
            host,
            dport,
        ),
{
    let line = recorded_line(ans, exe, dst, host, dport, origin)->0;
    lemma_recorded_line_means(ans, exe, dst, host, dport, origin);
    lemma_load_append(text, line);
}

/// Pinning an identity and loading the file afterwards give the same policy.
pub proof fn lemma_identity_then_load(text: Seq<char>, exe: Seq<char>, sha: Seq<char>)
    requires
        is_value(exe),
        is_word(sha),
    ensures
        loaded(appended(text, identity_line(exe, sha))) == applied(
            loaded(text),
            DirectiveView::AppId(exe, lowercase(sha)),
        ),
{
    let k = "app-id"@;
    let v = sha + seq!['\t'] + exe;
    let note = Some("identity when approved"@);
    lemma_identity_words();
    lemma_plain_is_word(k);
    lemma_scoped_back(sha, '\t', exe);
    lemma_entry_back(k, v, note);
    lemma_entry_is_line(k, v, note);
    lemma_load_append(text, identity_line(exe, sha));
    assert(directive(identity_line(exe, sha)) == DirectiveView::AppId(exe, lowercase(sha)));
}

proof fn lemma_identity_words()
    ensures
        kind_of("app-id"@) is None,
        is_plain("app-id"@),
        "app-id"@ != "default"@,
        "app-id"@ != "prompt"@,
        "identity when approved"@.len() > 0,
        is_line("identity when approved"@),
{
    reveal_strlit("app-id");
    reveal_strlit("identity when approved");
    reveal_strlit("default");
    reveal_strlit("prompt");
    lemma_kind_lengths();
    assert("app-id"@.len() == 6 && "default"@.len() == 7);
    assert("app-id"@[0] != "prompt"@[0]);
}

/// Every rule type is spelled with at least eight characters.
pub proof fn lemma_kind_lengths()
    ensures
        forall|w: Seq<char>| kind_of(w) is Some ==> #[trigger] w.len() >= 8,
{
    reveal_strlit("allow-app");
    reveal_strlit("deny-app");
    reveal_strlit("allow-host");
    reveal_strlit("deny-host");
    reveal_strlit("allow-dest");
    reveal_strlit("deny-dest");
    reveal_strlit("allow-host-from");
    reveal_strlit("allow-dest-from");
    reveal_strlit("deny-host-from");
    reveal_strlit("deny-dest-from");
}

} // verus!
