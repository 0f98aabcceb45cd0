//! Values are seen with all their parts, and with nothing else.
use crate::addr::IpAddr;
use crate::apps::{texts_of, Split};
use crate::cli::AddRequest;
use crate::daemon::{event_lists, opt_prompt, string_views, Action, ActionView, Daemon, Prompt};
use crate::dns::DnsCache;
use crate::identity::{opt_bytes, Identity};
use crate::pattern::{
    conn, opt_text, Flaw, Pattern, PatternError, PatternView, RuleSet,
};
use crate::policy::{
    numbered, opt_string, texts, Complaint, ComplaintView, Directive, DirectiveView, Policy,
};
use crate::procinfo::Tables;
use crate::resolver::Resolver;
use crate::rulefile::{rule_views, RefusalView, Rule, RuleError};
use crate::seen::Seen;
use crate::table::Keyed;
use crate::target::{target_view, Target};
use crate::text::rows;
use vstd::prelude::*;

verus! {

/// What may be missing is seen as missing, and else as it is.
pub proof fn lemma_optional_parts(
    s: Option<&str>,
    t: Option<String>,
    b: Option<&[u8]>,
    p: Option<Prompt>,
)
    ensures
        s is None <==> opt_text(s) is None,
        s matches Some(x) ==> opt_text(s) == Some(x@),
        t is None <==> opt_string(t) is None,
        t matches Some(x) ==> opt_string(t) == Some(x@),
        b is None <==> opt_bytes(b) is None,
        b matches Some(x) ==> opt_bytes(b) == Some(x@),
        p is None <==> opt_prompt(p) is None,
        p matches Some(x) ==> opt_prompt(p) == Some(x@),
{
}

/// Lists are seen item by item, in their order.
pub proof fn lemma_lists(
    a: Seq<String>,
    c: Seq<(usize, Complaint)>,
    r: Seq<Rule>,
    v: Seq<Vec<char>>,
    i: int,
)
    ensures
        texts_of(a).len() == a.len(),
        0 <= i < a.len() ==> texts_of(a)[i] == a[i]@,
        string_views(a).len() == a.len(),
        0 <= i < a.len() ==> string_views(a)[i] == a[i]@,
        numbered(c).len() == c.len(),
        0 <= i < c.len() ==> numbered(c)[i] == (c[i].0 as int, c[i].1@),
        rule_views(r).len() == r.len(),
        0 <= i < r.len() ==> rule_views(r)[i] == r[i]@,
        rows(v).len() == v.len(),
        0 <= i < v.len() ==> rows(v)[i] == v[i]@,
{
}

/// Tables of strings and of lists are seen entry by entry.
pub proof fn lemma_entries(
    m: Map<Seq<char>, String>,
    w: Map<(Seq<char>, Seq<char>), Vec<u64>>,
    k: Seq<char>,
    q: (Seq<char>, Seq<char>),
)
    ensures
        texts(m).contains_key(k) <==> m.contains_key(k),
        m.contains_key(k) ==> texts(m)[k] == m[k]@,
        event_lists(w).contains_key(q) <==> w.contains_key(q),
        w.contains_key(q) ==> event_lists(w)[q] == w[q]@,
{
}

/// A connection is seen with its binary, address, name and port.
pub proof fn lemma_connections(exe: Option<&str>, dst: IpAddr, host: Option<&str>, dport: u16)
    ensures
        ({
            let c = conn(exe, dst, host, dport);
            &&& exe matches Some(e) ==> c.exe == Some(e@)
            &&& exe is None ==> c.exe is None
            &&& host matches Some(h) ==> c.host == Some(h@)
            &&& host is None ==> c.host is None
            &&& c.dst == dst
            &&& c.dport == dport
        }),
{
}

/// A destination is seen with its name and port.
pub proof fn lemma_targets(t: Target)
    ensures
        target_view(t) == (t.0@, t.1),
{
}

/// A pattern is seen with everything it is about.
pub proof fn lemma_patterns(p: Pattern)
    ensures
        p matches Pattern::App(e) ==> p@ == PatternView::App(e@),
        p matches Pattern::Host(h, port) ==> p@ == PatternView::Host(h@, port),
        p matches Pattern::Dest(a, port) ==> p@ == PatternView::Dest(a, port),
        p matches Pattern::HostFrom(e, h, port) ==> p@ == PatternView::HostFrom(e@, h@, port),
        p matches Pattern::DestFrom(e, a, port) ==> p@ == PatternView::DestFrom(e@, a, port),
{
}

/// A set of rules holds exactly what its five tables hold.
pub proof fn lemma_rule_sets(s: RuleSet, e: Seq<char>, h: Seq<char>, a: IpAddr, port: Option<u16>)
    ensures
        s@.contains(PatternView::App(e)) <==> s.app@.contains_key(e),
        s@.contains(PatternView::Host(h, port)) <==> s.host@.contains_key((h, port)),
        s@.contains(PatternView::Dest(a, port)) <==> s.dest@.contains_key((a, port)),
        s@.contains(PatternView::HostFrom(e, h, port)) <==> s.host_from@.contains_key((e, h, port)),
        s@.contains(PatternView::DestFrom(e, a, port)) <==> s.dest_from@.contains_key((e, a, port)),
{
}

/// A policy is seen with its rules, its identities and its settings.
pub proof fn lemma_policies(p: Policy, k: Seq<char>)
    ensures
        p@.default == p.default,
        p@.allow == p.allow@,
        p@.deny == p.deny@,
        p.prompt is None <==> p@.prompt is None,
        p.prompt matches Some(x) ==> p@.prompt == Some(x@),
        p@.app_id.contains_key(k) <==> p.app_id@.contains_key(k),
        p.app_id@.contains_key(k) ==> p@.app_id[k] == p.app_id@[k]@,
        p@.mode == p.mode,
        p@.attribution == p.attribution,
{
}

/// A complaint is seen with its kind and with what it is about, and so is a flaw.
pub proof fn lemma_complaints(c: Complaint, f: PatternError, e: RuleError)
    ensures
        c matches Complaint::BadDefault(v) ==> c@ == ComplaintView::BadDefault(v@),
        c matches Complaint::BadMode(v) ==> c@ == ComplaintView::BadMode(v@),
        c matches Complaint::BadAttribution(v) ==> c@ == ComplaintView::BadAttribution(v@),
        c matches Complaint::BadAddress(v) ==> c@ == ComplaintView::BadAddress(v@),
        c matches Complaint::Incomplete(v) ==> c@ == ComplaintView::Incomplete(v@),
        c matches Complaint::Unknown(v) ==> c@ == ComplaintView::Unknown(v@),
        f matches PatternError::Incomplete ==> f@ == Flaw::Incomplete,
        f matches PatternError::BadAddress(a) ==> f@ == Flaw::BadAddress(a@),
        e matches RuleError::UnknownKind ==> e@ == RefusalView::UnknownKind,
        e matches RuleError::Incomplete ==> e@ == RefusalView::Incomplete,
        e matches RuleError::NotAnAddress { given, instead } ==> e@ == RefusalView::NotAnAddress(
            given@,
            instead@,
        ),
{
}

/// A directive is seen with its kind and with what it asks for.
pub proof fn lemma_directives(d: Directive)
    ensures
        d matches Directive::Nothing ==> d@ == DirectiveView::Nothing,
        d matches Directive::Rule(e, p) ==> d@ == DirectiveView::Rule(e, p@),
        d matches Directive::Default(v) ==> d@ == DirectiveView::Default(v),
        d matches Directive::Prompt(p) ==> d@ == DirectiveView::Prompt(p@),
        d matches Directive::AppId(e, h) ==> d@ == DirectiveView::AppId(e@, h@),
        d matches Directive::Mode(m) ==> d@ == DirectiveView::Mode(m),
        d matches Directive::Attribution(a) ==> d@ == DirectiveView::Attribution(a),
        d matches Directive::Unclear(c) ==> d@ == DirectiveView::Unclear(c@),
{
}

/// A listed rule is seen with its type, value and comment; its parts with the binary,
/// the destination and what it does; and a request with its type, value and note.
pub proof fn lemma_rules(r: Rule, s: Split, a: AddRequest)
    ensures
        r@.key == r.kind@,
        r@.value == r.value@,
        r.comment is None <==> r@.comment is None,
        r.comment matches Some(c) ==> r@.comment == Some(c@),
        s@.app == s.app@,
        s@.dest == s.dest@,
        s@.deny == s.deny,
        a@.kind == a.kind@,
        a@.value == a.value@,
        a.note is None <==> a@.note is None,
        a.note matches Some(n) ==> a@.note == Some(n@),
{
}

/// A prompt is seen with all that it shows, and an action with what is done.
pub proof fn lemma_prompts(p: Prompt, a: Action)
    ensures
        p.exe is None <==> p@.exe is None,
        p.exe matches Some(e) ==> p@.exe == Some(e@),
        p@.pid == p.pid,
        p@.command == p.command@,
        p@.dst == p.dst,
        p@.dport == p.dport,
        p.host is None <==> p@.host is None,
        p.host matches Some(h) ==> p@.host == Some(h@),
        p@.changed == p.changed,
        p@.scope == p.scope@,
        a matches Action::Forward ==> a@ == ActionView::Forward,
        a matches Action::Drop ==> a@ == ActionView::Drop,
        a matches Action::Reset(b) ==> a@ == ActionView::Reset(b@),
{
}

/// The daemon is seen with everything that it remembers.
pub proof fn lemma_daemons(d: Daemon, q: (Seq<char>, Seq<char>), e: Seq<char>)
    ensures
        d@.pol == d.pol@,
        d@.mode == d.mode,
        d@.fallback == d.fallback,
        d@.names == d.names@,
        d@.seen == d.seen@,
        d@.asking.contains(q) <==> d.asking@.contains_key(q),
        d@.waiting.contains_key(q) <==> d.waiting@.contains_key(q),
        d.waiting@.contains_key(q) ==> d@.waiting[q] == d.waiting@[q]@,
        d@.upcall_on == d.upcall_on,
        d@.warned.contains(e) <==> d.warned@.contains_key(e),
        d@.decided == d.decided@,
        d@.logged == d.logged@.dom(),
        d@.logged_cleared == d.logged_cleared,
        d@.last_check == d.last_check,
{
}

/// Names, hashes, times, sockets and scans are seen entry by entry.
pub proof fn lemma_memories(
    n: DnsCache,
    ip: IpAddr,
    h: Identity,
    path: Seq<char>,
    s: Seen,
    t: Tables,
    r: Resolver,
)
    ensures
        n@.contains_key(ip) <==> n.names@.contains_key(ip),
        n.names@.contains_key(ip) ==> n@[ip] == (n.names@[ip].0@, n.names@[ip].1),
        h@.contains_key(path) <==> h.cache@.contains_key(path),
        h.cache@.contains_key(path) ==> h@[path] == (
            h.cache@[path].0,
            h.cache@[path].1,
            h.cache@[path].2@,
        ),
        s@.times == s.map@,
        s@.dirty == s.dirty,
        s@.last_flush == s.last_flush,
        t@.exact == t.exact@,
        t@.local == t.local@,
        t@.port == t.port@,
        t@.contested_local == t.contested_local@.dom(),
        t@.contested_port == t.contested_port@.dom(),
        r@.tables == r.tables@,
        r@.last_scan == r.last_scan,
        r@.missed == r.missed@,
{
}

} // verus!
