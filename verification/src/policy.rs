//! Policy: what to do about a connection.
//!
//! Rules key on the path of the executable, never on the process name, and on
//! the host name that was looked up, so that one rule covers every address a
//! site answers on. The policy file is plain text, one directive per line; this
//! module reads it, decides by it, and says which line to append when the user
//! answers.
use crate::addr::{push_ip, ip_text, IpAddr};
use crate::line::{
    body_of, entry_line, key_of, line_body, scoped_of, split_key, split_scoped, value_of,
};
use crate::number::push_dec;
use crate::pattern::{
    any_covers, apps_in, conn, covers, dests_in, hosts_in, opt_text, parse_pattern, pattern_of,
    Conn, Flaw, Pattern, PatternError, PatternView, RuleSet,
};
use crate::platform::{lowercase, to_lower};
use crate::table::Table;
use crate::target::{push_target, target_text};
use crate::text::{chars_of, lines, push_text, rows, split_lines, string_of, word_is};
use crate::words::{
    attribution_of, kind_name, kind_of, kind_text, lower_chars, mode_of, parse_kind, parse_verdict,
    verdict_of, Answer, AttributionMode, Effect, Mode, Origin, Scope, Verdict,
};
use vstd::prelude::*;

verus! {

// ---------------------------------------------------------------------------
// One line.
// ---------------------------------------------------------------------------

/// What is wrong with a line, and the text it is about.
#[derive(Debug)]
pub enum Complaint {
    BadDefault(String),
    BadMode(String),
    BadAttribution(String),
    BadAddress(String),
    /// A scoped directive, named here, without both of its parts.
    Incomplete(String),
    Unknown(String),
}

/// A complaint as a value.
pub ghost enum ComplaintView {
    BadDefault(Seq<char>),
    BadMode(Seq<char>),
    BadAttribution(Seq<char>),
    BadAddress(Seq<char>),
    Incomplete(Seq<char>),
    Unknown(Seq<char>),
}

impl View for Complaint {
    type V = ComplaintView;

    open spec fn view(&self) -> ComplaintView {
        match *self {
            Complaint::BadDefault(v) => ComplaintView::BadDefault(v@),
            Complaint::BadMode(v) => ComplaintView::BadMode(v@),
            Complaint::BadAttribution(v) => ComplaintView::BadAttribution(v@),
            Complaint::BadAddress(v) => ComplaintView::BadAddress(v@),
            Complaint::Incomplete(v) => ComplaintView::Incomplete(v@),
            Complaint::Unknown(v) => ComplaintView::Unknown(v@),
        }
    }
}

/// What one line of a policy file asks for.
#[derive(Debug)]
pub enum Directive {
    Nothing,
    Rule(Effect, Pattern),
    Default(Verdict),
    Prompt(String),
    /// A binary and the hash it had when it was approved.
    AppId(String, String),
    Mode(Mode),
    Attribution(AttributionMode),
    Unclear(Complaint),
}

/// A directive as a value.
pub ghost enum DirectiveView {
    Nothing,
    Rule(Effect, PatternView),
    Default(Verdict),
    Prompt(Seq<char>),
    AppId(Seq<char>, Seq<char>),
    Mode(Mode),
    Attribution(AttributionMode),
    Unclear(ComplaintView),
}

impl View for Directive {
    type V = DirectiveView;

    open spec fn view(&self) -> DirectiveView {
        match *self {
            Directive::Nothing => DirectiveView::Nothing,
            Directive::Rule(e, p) => DirectiveView::Rule(e, p@),
            Directive::Default(v) => DirectiveView::Default(v),
            Directive::Prompt(p) => DirectiveView::Prompt(p@),
            Directive::AppId(e, h) => DirectiveView::AppId(e@, h@),
            Directive::Mode(m) => DirectiveView::Mode(m),
            Directive::Attribution(a) => DirectiveView::Attribution(a),
            Directive::Unclear(c) => DirectiveView::Unclear(c@),
        }
    }
}

/// What a key and a value ask for.
pub open spec fn directive_of(k: Seq<char>, v: Seq<char>) -> DirectiveView {
    match kind_of(k) {
        Some((effect, scope)) => match pattern_of(scope, v) {
            Ok(p) => DirectiveView::Rule(effect, p),
            Err(Flaw::Incomplete) => DirectiveView::Unclear(ComplaintView::Incomplete(k)),
            Err(Flaw::BadAddress(a)) => DirectiveView::Unclear(ComplaintView::BadAddress(a)),
        },
        None => if k == "default"@ {
            match verdict_of(v) {
                Some(d) => DirectiveView::Default(d),
                None => DirectiveView::Unclear(ComplaintView::BadDefault(v)),
            }
        } else if k == "prompt"@ {
            DirectiveView::Prompt(v)
        } else if k == "app-id"@ {
            match scoped_of(v) {
                Some((sha, exe)) => DirectiveView::AppId(exe, lowercase(sha)),
                None => DirectiveView::Unclear(ComplaintView::Incomplete(k)),
            }
        } else if k == "mode"@ {
            match mode_of(v) {
                Some(m) => DirectiveView::Mode(m),
                None => DirectiveView::Unclear(ComplaintView::BadMode(v)),
            }
        } else if k == "attribution"@ {
            match attribution_of(v) {
                Some(a) => DirectiveView::Attribution(a),
                None => DirectiveView::Unclear(ComplaintView::BadAttribution(v)),
            }
        } else {
            DirectiveView::Unclear(ComplaintView::Unknown(k))
        },
    }
}

/// What a line asks for. A line that is blank or only a comment asks for
/// nothing.
pub open spec fn directive(raw: Seq<char>) -> DirectiveView {
    let body = body_of(raw);
    if body.len() == 0 {
        DirectiveView::Nothing
    } else {
        directive_of(key_of(body), value_of(body))
    }
}

fn parse_setting(k: &[char], v: &[char]) -> (r: Directive)
    requires
        kind_of(k@) is None,
    ensures
        r@ == directive_of(k@, v@),
{
    if word_is(k, "default") {
        match parse_verdict(v) {
            Some(d) => Directive::Default(d),
            None => Directive::Unclear(Complaint::BadDefault(string_of(v))),
        }
    } else if word_is(k, "prompt") {
        Directive::Prompt(string_of(v))
    } else if word_is(k, "app-id") {
        match split_scoped(v) {
            Some((sha, exe)) => Directive::AppId(string_of(&exe), string_of(&lower_chars(&sha))),
            None => Directive::Unclear(Complaint::Incomplete(string_of(k))),
        }
    } else if word_is(k, "mode") {
        let t = string_of(v);
        match Mode::parse(t.as_str()) {
            Some(m) => Directive::Mode(m),
            None => Directive::Unclear(Complaint::BadMode(t)),
        }
    } else if word_is(k, "attribution") {
        let t = string_of(v);
        match AttributionMode::parse(t.as_str()) {
            Some(a) => Directive::Attribution(a),
            None => Directive::Unclear(Complaint::BadAttribution(t)),
        }
    } else {
        Directive::Unclear(Complaint::Unknown(string_of(k)))
    }
}

/// Read one line.
pub fn parse_directive(raw: &[char]) -> (r: Directive)
    ensures
        r@ == directive(raw@),
{
    let body = line_body(raw);
    if body.len() == 0 {
        return Directive::Nothing;
    }
    let (k, v) = split_key(body);
    match parse_kind(k) {
        Some((effect, scope)) => match parse_pattern(scope, v) {
            Ok(p) => Directive::Rule(effect, p),
            Err(PatternError::Incomplete) => Directive::Unclear(
                Complaint::Incomplete(string_of(k)),
            ),
            Err(PatternError::BadAddress(a)) => Directive::Unclear(Complaint::BadAddress(a)),
        },
        None => parse_setting(k, v),
    }
}

// ---------------------------------------------------------------------------
// The policy.
// ---------------------------------------------------------------------------

/// A loaded policy.
pub struct Policy {
    pub default: Verdict,
    pub allow: RuleSet,
    pub deny: RuleSet,
    /// Program used to ask the user.
    pub prompt: Option<String>,
    /// The hash each binary had when its rules were approved.
    pub app_id: Table<String, String>,
    /// Operating mode, when the file sets one.
    pub mode: Option<Mode>,
    /// Attribution backend, when the file sets one.
    pub attribution: Option<AttributionMode>,
}

/// A policy as a value.
#[verifier::ext_equal]
pub ghost struct PolicyView {
    pub default: Verdict,
    pub allow: Set<PatternView>,
    pub deny: Set<PatternView>,
    pub prompt: Option<Seq<char>>,
    pub app_id: Map<Seq<char>, Seq<char>>,
    pub mode: Option<Mode>,
    pub attribution: Option<AttributionMode>,
}

/// An optional string as a value.
pub open spec fn opt_string(s: Option<String>) -> Option<Seq<char>> {
    match s {
        Some(t) => Some(t@),
        None => None,
    }
}

/// A table of strings as a map of texts.
pub open spec fn texts(m: Map<Seq<char>, String>) -> Map<Seq<char>, Seq<char>> {
    m.map_values(|s: String| s@)
}

impl View for Policy {
    type V = PolicyView;

    open spec fn view(&self) -> PolicyView {
        PolicyView {
            default: self.default,
            allow: self.allow@,
            deny: self.deny@,
            prompt: opt_string(self.prompt),
            app_id: texts(self.app_id@),
            mode: self.mode,
            attribution: self.attribution,
        }
    }
}

/// The policy of an empty file: ask about everything.
pub open spec fn initial() -> PolicyView {
    PolicyView {
        default: Verdict::Ask,
        allow: Set::empty(),
        deny: Set::empty(),
        prompt: None,
        app_id: Map::empty(),
        mode: None,
        attribution: None,
    }
}

/// A policy with one more rule.
pub open spec fn with_rule(p: PolicyView, effect: Effect, pattern: PatternView) -> PolicyView {
    match effect {
        Effect::Allow => PolicyView { allow: p.allow.insert(pattern), ..p },
        Effect::Deny => PolicyView { deny: p.deny.insert(pattern), ..p },
    }
}

/// A policy after one more line.
pub open spec fn applied(p: PolicyView, d: DirectiveView) -> PolicyView {
    match d {
        DirectiveView::Nothing => p,
        DirectiveView::Rule(effect, pattern) => with_rule(p, effect, pattern),
        DirectiveView::Default(v) => PolicyView { default: v, ..p },
        DirectiveView::Prompt(s) => PolicyView { prompt: Some(s), ..p },
        DirectiveView::AppId(exe, sha) => PolicyView { app_id: p.app_id.insert(exe, sha), ..p },
        DirectiveView::Mode(m) => PolicyView { mode: Some(m), ..p },
        DirectiveView::Attribution(a) => PolicyView { attribution: Some(a), ..p },
        DirectiveView::Unclear(_) => p,
    }
}

/// The policy that some lines describe.
pub open spec fn after_lines(ls: Seq<Seq<char>>) -> PolicyView
    decreases ls.len(),
{
    if ls.len() == 0 {
        initial()
    } else {
        applied(after_lines(ls.drop_last()), directive(ls.last()))
    }
}

/// The policy that a file describes.
pub open spec fn loaded(text: Seq<char>) -> PolicyView {
    after_lines(lines(text))
}

/// What is wrong with some lines, each with its number, counted from one.
pub open spec fn complaints_in(ls: Seq<Seq<char>>) -> Seq<(int, ComplaintView)>
    decreases ls.len(),
{
    if ls.len() == 0 {
        Seq::empty()
    } else {
        let before = complaints_in(ls.drop_last());
        match directive(ls.last()) {
            DirectiveView::Unclear(c) => before.push((ls.len() as int, c)),
            _ => before,
        }
    }
}

/// Numbered complaints as values.
pub open spec fn numbered(v: Seq<(usize, Complaint)>) -> Seq<(int, ComplaintView)> {
    Seq::new(v.len(), |i: int| (v[i].0 as int, v[i].1@))
}

/// The verdict on a connection. Any deny that covers it wins over any allow, and
/// without either the default decides.
pub open spec fn verdict(p: PolicyView, c: Conn) -> Verdict {
    if any_covers(p.deny, c) {
        Verdict::Deny
    } else if any_covers(p.allow, c) {
        Verdict::Allow
    } else {
        p.default
    }
}

/// A connection to a host as it was seen, in whatever case.
pub open spec fn seen_conn(
    exe: Option<Seq<char>>,
    dst: IpAddr,
    host: Option<Seq<char>>,
    dport: u16,
) -> Conn {
    Conn {
        exe,
        dst,
        host: match host {
            Some(h) => Some(lowercase(h)),
            None => None,
        },
        dport,
    }
}

// ---------------------------------------------------------------------------
// Answers.
// ---------------------------------------------------------------------------

/// The name of a destination, when it has one worth writing down.
pub open spec fn named(host: Option<Seq<char>>) -> Option<Seq<char>> {
    match host {
        Some(h) => if h.len() > 0 && h != "-"@ {
            Some(h)
        } else {
            None
        },
        None => None,
    }
}

/// The narrowest pattern for a connection: by name when there is one, for this
/// binary when it is known, and for this port.
pub open spec fn narrowest(
    exe: Option<Seq<char>>,
    dst: IpAddr,
    name: Option<Seq<char>>,
    dport: u16,
) -> PatternView {
    match (exe, name) {
        (Some(e), Some(h)) => PatternView::HostFrom(e, lowercase(h), Some(dport)),
        (Some(e), None) => PatternView::DestFrom(e, dst, Some(dport)),
        (None, Some(h)) => PatternView::Host(lowercase(h), Some(dport)),
        (None, None) => PatternView::Dest(dst, Some(dport)),
    }
}

/// The rule an answer makes. A timeout makes none, and neither does an answer
/// about an application that is not known.
pub open spec fn chosen(
    ans: Answer,
    exe: Option<Seq<char>>,
    dst: IpAddr,
    host: Option<Seq<char>>,
    dport: u16,
) -> Option<(Effect, PatternView)> {
    match ans {
        Answer::AllowConn => Some((Effect::Allow, narrowest(exe, dst, named(host), dport))),
        Answer::Block => Some((Effect::Deny, narrowest(exe, dst, named(host), dport))),
        Answer::AllowApp => match exe {
            Some(e) => Some((Effect::Allow, PatternView::App(e))),
            None => None,
        },
        Answer::BlockApp => match exe {
            Some(e) => Some((Effect::Deny, PatternView::App(e))),
            None => None,
        },
        Answer::Timeout => None,
    }
}

/// What a pattern is about.
pub open spec fn scope_of(p: PatternView) -> Scope {
    match p {
        PatternView::App(..) => Scope::App,
        PatternView::Host(..) => Scope::Host,
        PatternView::Dest(..) => Scope::Dest,
        PatternView::HostFrom(..) => Scope::HostFrom,
        PatternView::DestFrom(..) => Scope::DestFrom,
    }
}

/// How a recorded destination is spelled: the name as it was seen, else the
/// address; the port; and the binary after a tab.
pub open spec fn recorded_value(
    exe: Option<Seq<char>>,
    dst: IpAddr,
    name: Option<Seq<char>>,
    dport: u16,
) -> Seq<char> {
    let target = target_text(
        match name {
            Some(h) => h,
            None => ip_text(dst),
        },
        Some(dport),
    );
    match exe {
        Some(e) => target + seq!['\t'] + e,
        None => target,
    }
}

/// The comment beside a recorded rule. It says where an approval came from, and
/// names the binary where one is known: a bare address tells nobody, months
/// later, why it is there.
pub open spec fn recorded_note(
    effect: Effect,
    scope: Scope,
    origin: Origin,
    exe: Option<Seq<char>>,
) -> Option<Seq<char>> {
    let who = match exe {
        Some(e) => e,
        None => "unknown"@,
    };
    match (effect, scope) {
        (Effect::Allow, Scope::App) => None,
        (Effect::Allow, Scope::HostFrom) => Some(origin.introduction() + seq![' '] + who),
        (Effect::Allow, Scope::DestFrom) => Some(
            "no hostname seen; "@ + origin.introduction() + seq![' '] + who,
        ),
        (Effect::Allow, Scope::Host) => Some(origin.note() + "; unattributed connection"@),
        (Effect::Allow, Scope::Dest) => Some(
            origin.note() + "; unattributed, no hostname seen"@,
        ),
        (Effect::Deny, Scope::App) => Some("every destination"@),
        (Effect::Deny, Scope::HostFrom) => Some("blocked for this app only"@),
        (Effect::Deny, Scope::DestFrom) => Some("no hostname seen; blocked for this app only"@),
        (Effect::Deny, Scope::Host) => Some(
            "unattributed connection; blocked for every application"@,
        ),
        (Effect::Deny, Scope::Dest) => Some(
            "unattributed, no hostname seen; blocked for every application"@,
        ),
    }
}

/// The line an answer adds to the policy file.
pub open spec fn recorded_line(
    ans: Answer,
    exe: Option<Seq<char>>,
    dst: IpAddr,
    host: Option<Seq<char>>,
    dport: u16,
    origin: Origin,
) -> Option<Seq<char>> {
    match chosen(ans, exe, dst, host, dport) {
        Some((effect, pattern)) => {
            let scope = scope_of(pattern);
            let value = match pattern {
                PatternView::App(e) => e,
                _ => recorded_value(exe, dst, named(host), dport),
            };
            Some(
                entry_line(
                    kind_text(effect, scope),
                    value,
                    recorded_note(effect, scope, origin, exe),
                ),
            )
        },
        None => None,
    }
}

/// The line that pins the identity of a binary.
pub open spec fn identity_line(exe: Seq<char>, sha: Seq<char>) -> Seq<char> {
    entry_line("app-id"@, sha + seq!['\t'] + exe, Some("identity when approved"@))
}

fn push_note(
    out: &mut Vec<char>,
    effect: Effect,
    scope: Scope,
    origin: Origin,
    exe: Option<&str>,
)
    ensures
        final(out)@ == (match recorded_note(effect, scope, origin, opt_text(exe)) {
            Some(n) => old(out)@ + seq!['\t', '#', ' '] + n,
            None => old(out)@,
        }),
{
    match (effect, scope) {
        (Effect::Allow, Scope::App) => {
            return ;
        },
        _ => {},
    }
    let who = match exe {
        Some(e) => e,
        None => "unknown",
    };
    out.push('\t');
    out.push('#');
    out.push(' ');
    match (effect, scope) {
        (Effect::Allow, Scope::App) => {},
        (Effect::Allow, Scope::HostFrom) => {
            push_text(out, origin.verb());
            out.push(' ');
            push_text(out, who);
        },
        (Effect::Allow, Scope::DestFrom) => {
            push_text(out, "no hostname seen; ");
            push_text(out, origin.verb());
            out.push(' ');
            push_text(out, who);
        },
        (Effect::Allow, Scope::Host) => {
            push_text(out, origin.adjective());
            push_text(out, "; unattributed connection");
        },
        (Effect::Allow, Scope::Dest) => {
            push_text(out, origin.adjective());
            push_text(out, "; unattributed, no hostname seen");
        },
        (Effect::Deny, Scope::App) => push_text(out, "every destination"),
        (Effect::Deny, Scope::HostFrom) => push_text(out, "blocked for this app only"),
        (Effect::Deny, Scope::DestFrom) => push_text(
            out,
            "no hostname seen; blocked for this app only",
        ),
        (Effect::Deny, Scope::Host) => push_text(
            out,
            "unattributed connection; blocked for every application",
        ),
        (Effect::Deny, Scope::Dest) => push_text(
            out,
            "unattributed, no hostname seen; blocked for every application",
        ),
    }
    assert(out@ =~= old(out)@ + seq!['\t', '#', ' '] + recorded_note(
        effect,
        scope,
        origin,
        opt_text(exe),
    )->0);
}

fn name_worth_writing(host: Option<&str>) -> (r: Option<&str>)
    ensures
        opt_text(r) == named(opt_text(host)),
{
    match host {
        Some(h) => {
            let c = chars_of(h);
            if c.len() > 0 && !word_is(&c, "-") {
                Some(h)
            } else {
                None
            }
        },
        None => None,
    }
}

fn narrowest_pattern(exe: Option<&str>, dst: IpAddr, name: Option<&str>, dport: u16) -> (r: (
    Scope,
    Pattern,
))
    ensures
        r.1@ == narrowest(opt_text(exe), dst, opt_text(name), dport),
        r.0 == scope_of(r.1@),
{
    match (exe, name) {
        (Some(e), Some(h)) => (
            Scope::HostFrom,
            Pattern::HostFrom(e.to_owned(), to_lower(h), Some(dport)),
        ),
        (Some(e), None) => (Scope::DestFrom, Pattern::DestFrom(e.to_owned(), dst, Some(dport))),
        (None, Some(h)) => (Scope::Host, Pattern::Host(to_lower(h), Some(dport))),
        (None, None) => (Scope::Dest, Pattern::Dest(dst, Some(dport))),
    }
}

fn push_recorded_value(
    out: &mut Vec<char>,
    exe: Option<&str>,
    dst: IpAddr,
    name: Option<&str>,
    dport: u16,
)
    ensures
        final(out)@ == old(out)@ + recorded_value(opt_text(exe), dst, opt_text(name), dport),
{
    let mut host: Vec<char> = Vec::new();
    match name {
        Some(h) => push_text(&mut host, h),
        None => push_ip(&mut host, &dst),
    }
    proof {
        match name {
            Some(h) => {
                assert(host@ =~= h@);
            },
            None => {
                assert(host@ =~= ip_text(dst));
            },
        }
    }
    push_target(out, &host, Some(dport));
    if let Some(e) = exe {
        out.push('\t');
        push_text(out, e);
    }
    assert(out@ =~= old(out)@ + recorded_value(opt_text(exe), dst, opt_text(name), dport));
}

impl Policy {
    /// No rule is stored twice, and no binary has two identities.
    pub open spec fn wf(&self) -> bool {
        &&& self.allow.wf()
        &&& self.deny.wf()
        &&& self.app_id.wf()
    }

    /// The policy of an empty file.
    pub fn new() -> (r: Policy)
        ensures
            r.wf(),
            r@ == initial(),
    {
        let r = Policy {
            default: Verdict::Ask,
            allow: RuleSet::new(),
            deny: RuleSet::new(),
            prompt: None,
            app_id: Table::new(),
            mode: None,
            attribution: None,
        };
        assert(r@ =~= initial());
        r
    }

    /// Add a rule.
    fn add(&mut self, effect: Effect, pattern: Pattern)
        requires
            old(self).wf(),
        ensures
            final(self).wf(),
            final(self)@ == with_rule(old(self)@, effect, pattern@),
    {
        match effect {
            Effect::Allow => self.allow.insert(pattern),
            Effect::Deny => self.deny.insert(pattern),
        }
    }

    /// Take one directive into account.
    pub fn apply(&mut self, d: Directive)
        requires
            old(self).wf(),
        ensures
            final(self).wf(),
            final(self)@ == applied(old(self)@, d@),
    {
        match d {
            Directive::Nothing => {},
            Directive::Rule(effect, pattern) => self.add(effect, pattern),
            Directive::Default(v) => {
                self.default = v;
            },
            Directive::Prompt(s) => {
                self.prompt = Some(s);
            },
            Directive::AppId(exe, sha) => {
                self.app_id.insert(exe, sha);
                assert(texts(self.app_id@) =~= texts(old(self).app_id@).insert(exe@, sha@));
            },
            Directive::Mode(m) => {
                self.mode = Some(m);
            },
            Directive::Attribution(a) => {
                self.attribution = Some(a);
            },
            Directive::Unclear(_) => {},
        }
    }

    /// Read a policy file. An absent file is an empty text.
    pub fn load(text: &str) -> (r: Policy)
        ensures
            r.wf(),
            r@ == loaded(text@),
    {
        let c = chars_of(text);
        let ls = split_lines(&c);
        let mut p = Policy::new();
        let n: usize = ls.len();
        let ghost all = lines(text@);
        proof {
            assert(all.take(0) =~= Seq::<Seq<char>>::empty());
        }
        for i in 0..n
            invariant
                n == ls@.len(),
                all == rows(ls@),
                p.wf(),
                p@ == after_lines(all.take(i as int)),
        {
            let d = parse_directive(&ls[i]);
            p.apply(d);
            proof {
                assert(all.take(i + 1).drop_last() =~= all.take(i as int));
                assert(all.take(i + 1).last() == ls@[i as int]@);
            }
        }
        proof {
            assert(all.take(n as int) =~= all);
        }
        p
    }

    /// What is wrong with a policy file: the number of each line that could not
    /// be understood, and why.
    pub fn complaints(text: &str) -> (r: Vec<(usize, Complaint)>)
        ensures
            numbered(r@) == complaints_in(lines(text@)),
    {
        let c = chars_of(text);
        let ls = split_lines(&c);
        let mut out: Vec<(usize, Complaint)> = Vec::new();
        let n: usize = ls.len();
        let ghost all = lines(text@);
        proof {
            assert(all.take(0) =~= Seq::<Seq<char>>::empty());
            assert(numbered(out@) =~= complaints_in(all.take(0)));
        }
        for i in 0..n
            invariant
                n == ls@.len(),
                all == rows(ls@),
                numbered(out@) == complaints_in(all.take(i as int)),
        {
            let ghost before = out@;
            proof {
                assert(all.take(i + 1).drop_last() =~= all.take(i as int));
                assert(all.take(i + 1).last() == ls@[i as int]@);
            }
            if let Directive::Unclear(c) = parse_directive(&ls[i]) {
                out.push((i + 1, c));
                proof {
                    assert(numbered(out@) =~= numbered(before).push(((i + 1) as int, c@)));
                }
            }
        }
        proof {
            assert(all.take(n as int) =~= all);
        }
        out
    }

    /// What to do about a connection.
    pub fn decide(&self, exe: Option<&str>, dst: IpAddr, host: Option<&str>, dport: u16) -> (r:
        Verdict)
        requires
            self.wf(),
        ensures
            r == verdict(self@, seen_conn(opt_text(exe), dst, opt_text(host), dport)),
    {
        match host {
            Some(h) => {
                let lower = to_lower(h);
                self.decide_lower(exe, dst, Some(lower.as_str()), dport)
            },
            None => self.decide_lower(exe, dst, None, dport),
        }
    }

    /// What to do about a connection whose host name is in lower case already.
    pub fn decide_lower(
        &self,
        exe: Option<&str>,
        dst: IpAddr,
        host_lower: Option<&str>,
        dport: u16,
    ) -> (r: Verdict)
        requires
            self.wf(),
        ensures
            r == verdict(self@, conn(exe, dst, host_lower, dport)),
    {
        if self.deny.covers(exe, dst, host_lower, dport) {
            Verdict::Deny
        } else if self.allow.covers(exe, dst, host_lower, dport) {
            Verdict::Allow
        } else {
            self.default
        }
    }

    /// Take an answer into account. The result is the line to append to the
    /// policy file, as `append_line` does, if the answer makes a rule at all.
    ///
    /// A rule covers the port it was asked about, not every port on that host:
    /// approving a browser's HTTPS access does not also hand it SSH.
    pub fn record(
        &mut self,
        ans: Answer,
        exe: Option<&str>,
        dst: IpAddr,
        host: Option<&str>,
        dport: u16,
        origin: Origin,
    ) -> (r: Option<String>)
        requires
            old(self).wf(),
        ensures
            final(self).wf(),
            opt_string(r) == recorded_line(
                ans,
                opt_text(exe),
                dst,
                opt_text(host),
                dport,
                origin,
            ),
            final(self)@ == (match chosen(ans, opt_text(exe), dst, opt_text(host), dport) {
                Some((effect, pattern)) => with_rule(old(self)@, effect, pattern),
                None => old(self)@,
            }),
    {
        let name = name_worth_writing(host);
        let effect = match ans {
            Answer::AllowConn | Answer::AllowApp => Effect::Allow,
            Answer::Block | Answer::BlockApp => Effect::Deny,
            Answer::Timeout => return None,
        };
        let (scope, pattern) = match ans {
            Answer::AllowApp | Answer::BlockApp => match exe {
                Some(e) => (Scope::App, Pattern::App(e.to_owned())),
                None => return None,
            },
            _ => narrowest_pattern(exe, dst, name, dport),
        };
        let mut out: Vec<char> = Vec::new();
        push_text(&mut out, kind_name(effect, scope));
        out.push(' ');
        match (scope, exe) {
            (Scope::App, Some(e)) => push_text(&mut out, e),
            _ => push_recorded_value(&mut out, exe, dst, name, dport),
        }
        push_note(&mut out, effect, scope, origin, exe);
        proof {
            let line = recorded_line(ans, opt_text(exe), dst, opt_text(host), dport, origin);
            assert(line is Some);
            assert(out@ =~= line->0);
        }
        self.add(effect, pattern);
        Some(string_of(&out))
    }

    /// One line that says how much the policy holds.
    pub fn summary(&self) -> (r: String)
        requires
            self.wf(),
        ensures
            r@ == summary_text(self@),
    {
        let mut out: Vec<char> = Vec::new();
        push_text(&mut out, "default=");
        push_text(&mut out, self.default.as_str());
        push_text(&mut out, " allow-app=");
        push_dec(&mut out, self.allow.app_len() as u64);
        push_text(&mut out, " deny-app=");
        push_dec(&mut out, self.deny.app_len() as u64);
        push_text(&mut out, " allow-host=");
        push_dec(&mut out, self.allow.host_len() as u64);
        push_text(&mut out, " allow-dest=");
        push_dec(&mut out, self.allow.dest_len() as u64);
        assert(out@ =~= summary_text(self@));
        string_of(&out)
    }

    /// Which program to ask the user with: what the environment says, unless it
    /// is empty, else what the file says, else the default.
    pub fn prompt_bin(&self, env: Option<&str>, default: &str) -> (r: String)
        ensures
            r@ == (match env {
                Some(p) if p@.len() > 0 => p@,
                _ => match self@.prompt {
                    Some(p) => p,
                    None => default@,
                },
            }),
    {
        if let Some(p) = env {
            if !p.is_empty() {
                return p.to_owned();
            }
        }
        match &self.prompt {
            Some(p) => p.clone(),
            None => default.to_owned(),
        }
    }

    /// The mode to run in: the file wins, else what the daemon was started with.
    pub fn mode(&self, fallback: Mode) -> (r: Mode)
        ensures
            r == (match self@.mode {
                Some(m) => m,
                None => fallback,
            }),
    {
        match self.mode {
            Some(m) => m,
            None => fallback,
        }
    }

    /// The attribution backend: what the file says, else a process-table scan.
    pub fn attribution(&self) -> (r: AttributionMode)
        ensures
            r == (match self@.attribution {
                Some(a) => a,
                None => AttributionMode::Procstat,
            }),
    {
        match self.attribution {
            Some(a) => a,
            None => AttributionMode::Procstat,
        }
    }

    /// The hash this binary had when its rules were approved, if one was
    /// recorded.
    pub fn expected_id(&self, exe: &str) -> (r: Option<&str>)
        requires
            self.wf(),
        ensures
            (match r {
                Some(h) => self@.app_id.contains_key(exe@) && self@.app_id[exe@] == h@,
                None => !self@.app_id.contains_key(exe@),
            }),
    {
        let k = exe.to_owned();
        match self.app_id.get(&k) {
            Some(h) => Some(h.as_str()),
            None => None,
        }
    }

    /// Remember what a binary looked like when it was approved, unless that is
    /// on record already. The result is the line to append to the file, as
    /// `append_line` does.
    pub fn record_id(&mut self, exe: &str, sha: &str) -> (r: Option<String>)
        requires
            old(self).wf(),
        ensures
            final(self).wf(),
            opt_string(r) == (if old(self)@.app_id.contains_key(exe@) {
                None
            } else {
                Some(identity_line(exe@, sha@))
            }),
            final(self)@ == (if old(self)@.app_id.contains_key(exe@) {
                old(self)@
            } else {
                applied(old(self)@, DirectiveView::AppId(exe@, lowercase(sha@)))
            }),
    {
        let k = exe.to_owned();
        if self.app_id.contains(&k) {
            return None;
        }
        self.apply(Directive::AppId(k, to_lower(sha)));
        let mut out: Vec<char> = Vec::new();
        push_text(&mut out, "app-id");
        out.push(' ');
        push_text(&mut out, sha);
        out.push('\t');
        push_text(&mut out, exe);
        out.push('\t');
        out.push('#');
        out.push(' ');
        push_text(&mut out, "identity when approved");
        assert(out@ =~= identity_line(exe@, sha@));
        Some(string_of(&out))
    }

    /// Forget a binary's recorded identity, so that the next approval pins it
    /// anew.
    pub fn forget_id(&mut self, exe: &str)
        requires
            old(self).wf(),
        ensures
            final(self).wf(),
            final(self)@ == (PolicyView {
                app_id: old(self)@.app_id.remove(exe@),
                ..old(self)@
            }),
    {
        let k = exe.to_owned();
        self.app_id.remove(&k);
        assert(texts(self.app_id@) =~= texts(old(self).app_id@).remove(exe@));
    }
}

/// What the summary says.
pub open spec fn summary_text(p: PolicyView) -> Seq<char> {
    "default="@ + p.default.name() + " allow-app="@ + crate::number::dec(apps_in(p.allow).len())
        + " deny-app="@ + crate::number::dec(apps_in(p.deny).len()) + " allow-host="@
        + crate::number::dec(hosts_in(p.allow).len()) + " allow-dest="@ + crate::number::dec(
        dests_in(p.allow).len(),
    )
}

} // verus!
