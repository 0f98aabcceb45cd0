//! The rules grouped by application, and when each was last of use.
//!
//! The policy file holds rules by type; whoever looks at them wants them by
//! application. Grouping them here means that every frontend groups them alike.
use crate::line::{key_of, split_key, value_of, Entry};
use crate::order::{lemma_precedes_total, lemma_precedes_transitive, precedes, text_precedes};
use crate::platform::lowercase;
use crate::rulefile::{rule_views, Rule};
use crate::seen::Times;
use crate::table::{Keyed, Table};
use crate::target::{split_target_chars, target_of};
use crate::text::{chars_of, copy_chars, same, split, split_chars, starts_with, string_of};
use crate::words::{kind_of, lower_chars, parse_kind, Scope};
use vstd::prelude::*;

verus! {

// ---------------------------------------------------------------------------
// Taking rules apart.
// ---------------------------------------------------------------------------

/// A rule broken into the parts a frontend shows: the binary it belongs to, or
/// nothing where it covers every binary; what it is about; and whether it
/// denies.
#[derive(Debug)]
pub struct Split {
    pub app: String,
    pub dest: String,
    pub deny: bool,
}

/// The parts of a rule as values.
pub ghost struct SplitView {
    pub app: Seq<char>,
    pub dest: Seq<char>,
    pub deny: bool,
}

impl View for Split {
    type V = SplitView;

    open spec fn view(&self) -> SplitView {
        SplitView { app: self.app@, dest: self.dest@, deny: self.deny }
    }
}

/// The word for what a rule does.
pub open spec fn effect_word(deny: bool) -> Seq<char> {
    if deny {
        "deny"@
    } else {
        "allow"@
    }
}

/// The parts of a rule. A whole-application rule covers everywhere its binary
/// connects; a scoped rule names its destination first and its binary after;
/// any other rule covers every binary.
pub open spec fn split_of(kind: Seq<char>, value: Seq<char>) -> SplitView {
    let deny = kind.len() >= 4 && kind.take(4) == "deny"@;
    match kind_of(kind) {
        Some((_, Scope::App)) => SplitView { app: value, dest: "all destinations"@, deny },
        Some((_, Scope::HostFrom)) | Some((_, Scope::DestFrom)) => SplitView {
            app: value_of(value),
            dest: key_of(value),
            deny,
        },
        _ => SplitView { app: Seq::empty(), dest: value, deny },
    }
}

/// Take a rule apart.
pub fn split_rule(kind: &str, value: &str) -> (r: Split)
    ensures
        r@ == split_of(kind@, value@),
{
    let k = chars_of(kind);
    let deny = starts_with(&k, "deny");
    proof {
        reveal_strlit("deny");
    }
    match parse_kind(&k) {
        Some((_, Scope::App)) => Split {
            app: value.to_owned(),
            dest: "all destinations".to_owned(),
            deny,
        },
        Some((_, Scope::HostFrom)) | Some((_, Scope::DestFrom)) => {
            let v = chars_of(value);
            let (dest, app) = split_key(&v);
            Split { app: string_of(app), dest: string_of(dest), deny }
        },
        _ => {
            let none = String::new();
            assert(none@ =~= Seq::<char>::empty());
            Split { app: none, dest: value.to_owned(), deny }
        },
    }
}

/// The binary a listed rule belongs to.
pub open spec fn app_of(e: Entry) -> Seq<char> {
    split_of(e.key, e.value).app
}

// ---------------------------------------------------------------------------
// Groups.
// ---------------------------------------------------------------------------

/// The binaries that rules belong to, each once, in the order they first occur.
pub open spec fn apps_in_order(rs: Seq<Entry>) -> Seq<Seq<char>>
    decreases rs.len(),
{
    if rs.len() == 0 {
        Seq::empty()
    } else {
        let before = apps_in_order(rs.drop_last());
        if before.contains(app_of(rs.last())) {
            before
        } else {
            before.push(app_of(rs.last()))
        }
    }
}

/// The name of a binary without its directory.
pub open spec fn base_name(path: Seq<char>) -> Seq<char> {
    split(path, '/').last()
}

/// Does one application come before another in the list? Named applications come
/// first, by the name of the binary in lower case; the rules that cover every
/// binary come last.
pub open spec fn app_precedes(a: Seq<char>, b: Seq<char>) -> bool {
    if (a.len() == 0) != (b.len() == 0) {
        b.len() == 0
    } else {
        precedes(lowercase(base_name(a)), lowercase(base_name(b)))
    }
}

/// A list with one more application put where it belongs, behind its equals.
pub open spec fn placed(list: Seq<Seq<char>>, app: Seq<char>) -> Seq<Seq<char>>
    decreases list.len(),
{
    if list.len() > 0 && app_precedes(app, list.last()) {
        placed(list.drop_last(), app).push(list.last())
    } else {
        list.push(app)
    }
}

/// The applications in the order of the list; equals stay in the order they were
/// in.
pub open spec fn arranged(apps: Seq<Seq<char>>) -> Seq<Seq<char>>
    decreases apps.len(),
{
    if apps.len() == 0 {
        Seq::empty()
    } else {
        placed(arranged(apps.drop_last()), apps.last())
    }
}

/// The rules that belong to one binary, in file order.
pub open spec fn rules_of(rs: Seq<Entry>, app: Seq<char>) -> Seq<Entry>
    decreases rs.len(),
{
    if rs.len() == 0 {
        Seq::empty()
    } else {
        let before = rules_of(rs.drop_last(), app);
        if app_of(rs.last()) == app {
            before.push(rs.last())
        } else {
            before
        }
    }
}

/// How many of some rules allow.
pub open spec fn allow_count(rs: Seq<Entry>) -> nat
    decreases rs.len(),
{
    if rs.len() == 0 {
        0
    } else {
        allow_count(rs.drop_last()) + (if split_of(rs.last().key, rs.last().value).deny {
            0nat
        } else {
            1nat
        })
    }
}

// ---------------------------------------------------------------------------
// Last use.
// ---------------------------------------------------------------------------

/// Is this the latest of the times picked out?
pub open spec fn is_latest(
    m: Times,
    pick: spec_fn((Seq<char>, Seq<char>)) -> bool,
    t: u64,
) -> bool {
    &&& exists|k: (Seq<char>, Seq<char>)| #[trigger] m.contains_key(k) && pick(k) && m[k] == t
    &&& forall|k: (Seq<char>, Seq<char>)| #[trigger] m.contains_key(k) && pick(k) ==> m[k] <= t
}

/// The latest of the times picked out, if any is.
pub open spec fn latest(m: Times, pick: spec_fn((Seq<char>, Seq<char>)) -> bool) -> Option<u64> {
    if exists|t: u64| is_latest(m, pick, t) {
        Some(choose|t: u64| is_latest(m, pick, t))
    } else {
        None
    }
}

/// The contacts of one binary.
pub open spec fn by_binary(app: Seq<char>) -> spec_fn((Seq<char>, Seq<char>)) -> bool {
    |k: (Seq<char>, Seq<char>)| k.0 == app
}

/// The contacts with one destination.
pub open spec fn by_destination(dest: Seq<char>) -> spec_fn((Seq<char>, Seq<char>)) -> bool {
    |k: (Seq<char>, Seq<char>)| k.1 == dest
}

/// When a rule was last of use. The table knows destinations without ports, so
/// the port is left out. A rule for every binary was of use when any binary went
/// there; a whole-application rule, when its binary went anywhere.
pub open spec fn rule_used(m: Times, s: SplitView) -> Option<u64> {
    let host = lowercase(target_of(s.dest).0);
    if s.app.len() == 0 {
        latest(m, by_destination(host))
    } else if s.dest == "all destinations"@ {
        latest(m, by_binary(s.app))
    } else if m.contains_key((s.app, host)) {
        Some(m[(s.app, host)])
    } else {
        None
    }
}

/// The later of two times.
pub open spec fn later(a: Option<u64>, b: Option<u64>) -> Option<u64> {
    match (a, b) {
        (Some(x), Some(y)) => if x >= y {
            Some(x)
        } else {
            Some(y)
        },
        (Some(x), None) => Some(x),
        (None, y) => y,
    }
}

/// When any of some rules was last of use.
pub open spec fn any_used(m: Times, rs: Seq<Entry>) -> Option<u64>
    decreases rs.len(),
{
    if rs.len() == 0 {
        None
    } else {
        later(
            any_used(m, rs.drop_last()),
            rule_used(m, split_of(rs.last().key, rs.last().value)),
        )
    }
}

/// When an application was last seen; for the rules that cover every binary, when
/// any of them was of use.
pub open spec fn app_used(m: Times, app: Seq<char>, rs: Seq<Entry>) -> Option<u64> {
    if app.len() == 0 {
        any_used(m, rs)
    } else {
        latest(m, by_binary(app))
    }
}

proof fn lemma_latest_is(
    m: Times,
    pick: spec_fn((Seq<char>, Seq<char>)) -> bool,
    r: Option<u64>,
)
    requires
        (match r {
            Some(t) => is_latest(m, pick, t),
            None => forall|k: (Seq<char>, Seq<char>)| #[trigger] m.contains_key(k) ==> !pick(k),
        }),
    ensures
        latest(m, pick) == r,
{
    match r {
        Some(t) => {
            let u = choose|u: u64| is_latest(m, pick, u);
            let k = choose|k: (Seq<char>, Seq<char>)| #[trigger]
                m.contains_key(k) && pick(k) && m[k] == t;
            let j = choose|k: (Seq<char>, Seq<char>)| #[trigger]
                m.contains_key(k) && pick(k) && m[k] == u;
            assert(m[k] <= u);
            assert(m[j] <= t);
        },
        None => {},
    }
}

/// The latest time is one that was picked out, and none is later.
pub proof fn lemma_latest(m: Times, pick: spec_fn((Seq<char>, Seq<char>)) -> bool)
    ensures
        latest(m, pick) matches Some(t) ==> is_latest(m, pick, t),
{
}

fn latest_by_binary(m: &Table<(String, String), u64>, app: &str) -> (r: Option<u64>)
    requires
        m.wf(),
    ensures
        r == latest(m@, by_binary(app@)),
{
    let mut best: Option<u64> = None;
    let n: usize = m.slots.len();
    for i in 0..n
        invariant
            m.wf(),
            n == m.slots@.len(),
            (match best {
                Some(t) => {
                    &&& exists|j: int|
                        0 <= j < i && (#[trigger] m.slots@[j]).0.0@ == app@ && m.slots@[j].1 == t
                    &&& forall|j: int|
                        0 <= j < i && (#[trigger] m.slots@[j]).0.0@ == app@ ==> m.slots@[j].1 <= t
                },
                None => forall|j: int| 0 <= j < i ==> (#[trigger] m.slots@[j]).0.0@ != app@,
            }),
    {
        let slot = &m.slots[i];
        if same(slot.0.0.as_str(), app) {
            let t: u64 = slot.1;
            best = match best {
                Some(b) => if b >= t {
                    Some(b)
                } else {
                    Some(t)
                },
                None => Some(t),
            };
            assert(m.slots@[i as int].0.0@ == app@);
        }
    }
    proof {
        let pick = by_binary(app@);
        match best {
            Some(t) => {
                let j = choose|j: int|
                    0 <= j < n && (#[trigger] m.slots@[j]).0.0@ == app@ && m.slots@[j].1 == t;
                m.lemma_slot(j);
                assert(m@.contains_key(m.slots@[j].0.key()));
                assert forall|k: (Seq<char>, Seq<char>)| #[trigger]
                    m@.contains_key(k) && pick(k) implies m@[k] <= t by {
                    let i = m.lemma_key(k);
                    assert(m.slots@[i].0.0@ == app@);
                }
            },
            None => {
                assert forall|k: (Seq<char>, Seq<char>)| #[trigger]
                    m@.contains_key(k) implies !pick(k) by {
                    let i = m.lemma_key(k);
                    assert(m.slots@[i].0.0@ != app@);
                }
            },
        }
        lemma_latest_is(m@, pick, best);
    }
    best
}

fn latest_by_destination(m: &Table<(String, String), u64>, dest: &str) -> (r: Option<u64>)
    requires
        m.wf(),
    ensures
        r == latest(m@, by_destination(dest@)),
{
    let mut best: Option<u64> = None;
    let n: usize = m.slots.len();
    for i in 0..n
        invariant
            m.wf(),
            n == m.slots@.len(),
            (match best {
                Some(t) => {
                    &&& exists|j: int|
                        0 <= j < i && (#[trigger] m.slots@[j]).0.1@ == dest@ && m.slots@[j].1 == t
                    &&& forall|j: int|
                        0 <= j < i && (#[trigger] m.slots@[j]).0.1@ == dest@ ==> m.slots@[j].1 <= t
                },
                None => forall|j: int| 0 <= j < i ==> (#[trigger] m.slots@[j]).0.1@ != dest@,
            }),
    {
        let slot = &m.slots[i];
        if same(slot.0.1.as_str(), dest) {
            let t: u64 = slot.1;
            best = match best {
                Some(b) => if b >= t {
                    Some(b)
                } else {
                    Some(t)
                },
                None => Some(t),
            };
            assert(m.slots@[i as int].0.1@ == dest@);
        }
    }
    proof {
        let pick = by_destination(dest@);
        match best {
            Some(t) => {
                let j = choose|j: int|
                    0 <= j < n && (#[trigger] m.slots@[j]).0.1@ == dest@ && m.slots@[j].1 == t;
                m.lemma_slot(j);
                assert(m@.contains_key(m.slots@[j].0.key()));
                assert forall|k: (Seq<char>, Seq<char>)| #[trigger]
                    m@.contains_key(k) && pick(k) implies m@[k] <= t by {
                    let i = m.lemma_key(k);
                    assert(m.slots@[i].0.1@ == dest@);
                }
            },
            None => {
                assert forall|k: (Seq<char>, Seq<char>)| #[trigger]
                    m@.contains_key(k) implies !pick(k) by {
                    let i = m.lemma_key(k);
                    assert(m.slots@[i].0.1@ != dest@);
                }
            },
        }
        lemma_latest_is(m@, pick, best);
    }
    best
}

/// When a rule was last of use.
pub fn rule_seen(m: &Table<(String, String), u64>, s: &Split) -> (r: Option<u64>)
    requires
        m.wf(),
    ensures
        r == rule_used(m@, s@),
{
    let (h, _) = split_target_chars(&chars_of(s.dest.as_str()));
    let host = string_of(&lower_chars(&h));
    if s.app.as_str().is_empty() {
        return latest_by_destination(m, host.as_str());
    }
    if same(s.dest.as_str(), "all destinations") {
        return latest_by_binary(m, s.app.as_str());
    }
    match m.get(&(s.app.clone(), host)) {
        Some(t) => Some(*t),
        None => None,
    }
}

// ---------------------------------------------------------------------------
// The list.
// ---------------------------------------------------------------------------

/// A rule in its group.
#[derive(Debug)]
pub struct AppRule {
    pub rule: Rule,
    pub split: Split,
    pub last_seen: Option<u64>,
}

/// An application and its rules.
#[derive(Debug)]
pub struct AppGroup {
    /// The binary; empty for the rules that cover every binary.
    pub app: String,
    pub rules: Vec<AppRule>,
    pub allow: usize,
    pub deny: usize,
    pub last_seen: Option<u64>,
}

/// Does this entry report this rule?
pub open spec fn reports(a: AppRule, e: Entry, m: Times) -> bool {
    &&& a.rule@ == e
    &&& a.split@ == split_of(e.key, e.value)
    &&& a.last_seen == rule_used(m, split_of(e.key, e.value))
}

/// Do these entries report these rules, one for one?
pub open spec fn all_report(v: Seq<AppRule>, es: Seq<Entry>, m: Times) -> bool {
    &&& v.len() == es.len()
    &&& forall|i: int| 0 <= i < v.len() ==> reports(#[trigger] v[i], es[i], m)
}

/// Is this the group of an application?
pub open spec fn is_group(g: AppGroup, app: Seq<char>, rs: Seq<Entry>, m: Times) -> bool {
    let own = rules_of(rs, app);
    &&& g.app@ == app
    &&& all_report(g.rules@, own, m)
    &&& g.allow == allow_count(own)
    &&& g.deny == own.len() - allow_count(own)
    &&& g.last_seen == app_used(m, app, own)
}

/// Is this the list of applications that some rules make?
pub open spec fn is_app_list(v: Seq<AppGroup>, rs: Seq<Entry>, m: Times) -> bool {
    let order = arranged(apps_in_order(rs));
    &&& v.len() == order.len()
    &&& forall|i: int| 0 <= i < v.len() ==> is_group(#[trigger] v[i], order[i], rs, m)
}

/// Texts as values.
pub open spec fn texts_of(v: Seq<String>) -> Seq<Seq<char>> {
    Seq::new(v.len(), |i: int| v[i]@)
}

fn is_before(a: &str, b: &str) -> (r: bool)
    ensures
        r == app_precedes(a@, b@),
{
    if a.is_empty() != b.is_empty() {
        return b.is_empty();
    }
    let x = lower_chars(&base_chars(a));
    let y = lower_chars(&base_chars(b));
    text_precedes(&x, &y)
}

fn base_chars(path: &str) -> (r: Vec<char>)
    ensures
        r@ == base_name(path@),
{
    let c = chars_of(path);
    let parts = split_chars(&c, '/');
    let n: usize = parts.len();
    assert(split(c@, '/').len() > 0);
    copy_chars(&parts[n - 1])
}

proof fn lemma_placed_push(list: Seq<Seq<char>>, k: int, app: Seq<char>)
    requires
        0 <= k <= list.len(),
        k > 0 ==> !app_precedes(app, list[k - 1]),
        forall|i: int| k <= i < list.len() ==> app_precedes(app, #[trigger] list[i]),
    ensures
        placed(list, app) == list.take(k).push(app) + list.skip(k),
    decreases list.len(),
{
    if list.len() == k {
        assert(list.take(k).push(app) + list.skip(k) =~= list.push(app));
        if list.len() > 0 {
            assert(list.last() == list[k - 1]);
        }
    } else {
        let h = list.drop_last();
        assert(app_precedes(app, list[list.len() - 1]));
        assert forall|i: int| k <= i < h.len() implies app_precedes(app, #[trigger] h[i]) by {
            assert(h[i] == list[i]);
        }
        if k > 0 {
            assert(h[k - 1] == list[k - 1]);
        }
        lemma_placed_push(h, k, app);
        assert(list.take(k).push(app) + list.skip(k) =~= (h.take(k).push(app) + h.skip(k)).push(
            list.last(),
        ));
    }
}

fn place(list: &mut Vec<String>, app: String)
    ensures
        texts_of(final(list)@) == placed(texts_of(old(list)@), app@),
{
    let ghost before = list@;
    let ghost all = texts_of(list@);
    let mut k: usize = list.len();
    while k > 0 && is_before(app.as_str(), list[k - 1].as_str())
        invariant
            k <= list@.len(),
            list@ == before,
            all == texts_of(before),
            forall|i: int| k <= i < all.len() ==> app_precedes(app@, #[trigger] all[i]),
        decreases k,
    {
        k = k - 1;
    }
    proof {
        if k > 0 {
            assert(all[k - 1] == list@[k - 1]@);
        }
        lemma_placed_push(all, k as int, app@);
    }
    list.insert(k, app);
    assert(texts_of(list@) =~= all.take(k as int).push(app@) + all.skip(k as int));
}

fn listed_in(list: &Vec<String>, app: &str) -> (r: bool)
    ensures
        r == texts_of(list@).contains(app@),
{
    let n: usize = list.len();
    for i in 0..n
        invariant
            n == list@.len(),
            forall|j: int| 0 <= j < i ==> (#[trigger] list@[j])@ != app@,
    {
        if same(list[i].as_str(), app) {
            assert(texts_of(list@)[i as int] == app@);
            return true;
        }
    }
    proof {
        if texts_of(list@).contains(app@) {
            let j = choose|j: int| 0 <= j < texts_of(list@).len() && texts_of(list@)[j] == app@;
            assert(list@[j]@ == app@);
        }
    }
    false
}

fn ordered_apps(rs: &[Rule]) -> (r: Vec<String>)
    ensures
        texts_of(r@) == arranged(apps_in_order(rule_views(rs@))),
{
    let mut first: Vec<String> = Vec::new();
    let n: usize = rs.len();
    let ghost es = rule_views(rs@);
    proof {
        assert(es.take(0) =~= Seq::<Entry>::empty());
        assert(texts_of(first@) =~= apps_in_order(es.take(0)));
    }
    for i in 0..n
        invariant
            n == rs@.len(),
            es == rule_views(rs@),
            texts_of(first@) == apps_in_order(es.take(i as int)),
    {
        let s = split_rule(rs[i].kind.as_str(), rs[i].value.as_str());
        let ghost before = first@;
        proof {
            assert(es.take(i + 1).drop_last() =~= es.take(i as int));
            assert(es.take(i + 1).last() == rs@[i as int]@);
        }
        if !listed_in(&first, s.app.as_str()) {
            first.push(s.app);
            assert(texts_of(first@) =~= texts_of(before).push(s.app@));
        }
    }
    assert(es.take(n as int) =~= es);
    let mut out: Vec<String> = Vec::new();
    let m: usize = first.len();
    let ghost apps = texts_of(first@);
    proof {
        assert(apps.take(0) =~= Seq::<Seq<char>>::empty());
        assert(texts_of(out@) =~= arranged(apps.take(0)));
    }
    for i in 0..m
        invariant
            m == first@.len(),
            apps == texts_of(first@),
            texts_of(out@) == arranged(apps.take(i as int)),
    {
        place(&mut out, first[i].clone());
        proof {
            assert(apps.take(i + 1).drop_last() =~= apps.take(i as int));
            assert(apps.take(i + 1).last() == first@[i as int]@);
        }
    }
    assert(apps.take(m as int) =~= apps);
    out
}

fn copy_rule(r: &Rule) -> (c: Rule)
    ensures
        c@ == r@,
{
    Rule {
        kind: r.kind.clone(),
        value: r.value.clone(),
        comment: match &r.comment {
            Some(t) => Some(t.clone()),
            None => None,
        },
    }
}

fn later_of(a: Option<u64>, b: Option<u64>) -> (r: Option<u64>)
    ensures
        r == later(a, b),
{
    match (a, b) {
        (Some(x), Some(y)) => if x >= y {
            Some(x)
        } else {
            Some(y)
        },
        (Some(x), None) => Some(x),
        (None, y) => y,
    }
}

fn make_group(rs: &[Rule], last: &Table<(String, String), u64>, app: String) -> (r: AppGroup)
    requires
        last.wf(),
    ensures
        is_group(r, app@, rule_views(rs@), last@),
{
    let mut rules: Vec<AppRule> = Vec::new();
    let mut allow: usize = 0;
    let mut used: Option<u64> = None;
    let n: usize = rs.len();
    let ghost es = rule_views(rs@);
    proof {
        assert(es.take(0) =~= Seq::<Entry>::empty());
    }
    for i in 0..n
        invariant
            n == rs@.len(),
            es == rule_views(rs@),
            last.wf(),
            all_report(rules@, rules_of(es.take(i as int), app@), last@),
            allow <= rules@.len(),
            rules@.len() <= i,
            allow == allow_count(rules_of(es.take(i as int), app@)),
            used == any_used(last@, rules_of(es.take(i as int), app@)),
    {
        let s = split_rule(rs[i].kind.as_str(), rs[i].value.as_str());
        let ghost own = rules_of(es.take(i as int), app@);
        let ghost e = rs@[i as int]@;
        let ghost before = rules@;
        proof {
            assert(es.take(i + 1).drop_last() =~= es.take(i as int));
            assert(es.take(i + 1).last() == e);
        }
        if same(s.app.as_str(), app.as_str()) {
            let t = rule_seen(last, &s);
            if !s.deny {
                allow = allow + 1;
            }
            used = later_of(used, t);
            let rule = copy_rule(&rs[i]);
            let ghost sv = s@;
            let entry = AppRule { rule, split: s, last_seen: t };
            rules.push(entry);
            proof {
                assert(own.push(e).drop_last() =~= own);
                assert(reports(entry, e, last@));
                assert forall|j: int| 0 <= j < rules@.len() implies reports(
                    #[trigger] rules@[j],
                    own.push(e)[j],
                    last@,
                ) by {
                    if j < before.len() {
                        assert(reports(before[j], own[j], last@));
                    }
                }
            }
        }
    }
    proof {
        assert(es.take(n as int) =~= es);
    }
    let deny: usize = rules.len() - allow;
    let last_seen = if app.as_str().is_empty() {
        used
    } else {
        latest_by_binary(last, app.as_str())
    };
    AppGroup { app, rules, allow, deny, last_seen }
}

/// Group rules by application, and say when each was last of use.
pub fn apps(rs: &[Rule], last: &Table<(String, String), u64>) -> (r: Vec<AppGroup>)
    requires
        last.wf(),
    ensures
        is_app_list(r@, rule_views(rs@), last@),
{
    let order = ordered_apps(rs);
    let n: usize = order.len();
    let mut out: Vec<AppGroup> = Vec::new();
    let ghost names = texts_of(order@);
    for i in 0..n
        invariant
            n == order@.len(),
            names == texts_of(order@),
            last.wf(),
            out@.len() == i,
            forall|j: int|
                0 <= j < i ==> is_group(#[trigger] out@[j], names[j], rule_views(rs@), last@),
    {
        let g = make_group(rs, last, order[i].clone());
        out.push(g);
    }
    out
}

// ---------------------------------------------------------------------------
// What holds of every list.
// ---------------------------------------------------------------------------

proof fn lemma_app_order(a: Seq<char>, b: Seq<char>, c: Seq<char>)
    ensures
        !(app_precedes(a, b) && app_precedes(b, a)),
        !app_precedes(b, a) && !app_precedes(c, b) ==> !app_precedes(c, a),
{
    let (x, y, z) = (
        lowercase(base_name(a)),
        lowercase(base_name(b)),
        lowercase(base_name(c)),
    );
    lemma_precedes_total(x, y);
    lemma_precedes_total(y, z);
    lemma_precedes_total(x, z);
    if precedes(x, y) && precedes(y, z) {
        lemma_precedes_transitive(x, y, z);
    }
}

/// Is a list in order: none comes before one that stands in front of it?
pub open spec fn is_arranged(list: Seq<Seq<char>>) -> bool {
    forall|i: int, j: int|
        0 <= i < j < list.len() ==> !app_precedes(#[trigger] list[j], #[trigger] list[i])
}

proof fn lemma_placed(list: Seq<Seq<char>>, app: Seq<char>)
    requires
        is_arranged(list),
    ensures
        is_arranged(placed(list, app)),
        placed(list, app).to_multiset() == list.to_multiset().insert(app),
        forall|i: int|
            0 <= i < placed(list, app).len() ==> #[trigger] placed(list, app)[i] == app
                || list.contains(placed(list, app)[i]),
    decreases list.len(),
{
    broadcast use vstd::seq_lib::group_to_multiset_ensures;

    let p = placed(list, app);
    if list.len() > 0 && app_precedes(app, list.last()) {
        let h = list.drop_last();
        let q = placed(h, app);
        assert forall|i: int, j: int| 0 <= i < j < h.len() implies !app_precedes(
            #[trigger] h[j],
            #[trigger] h[i],
        ) by {
            assert(h[i] == list[i] && h[j] == list[j]);
        }
        lemma_placed(h, app);
        assert(h.push(list.last()) =~= list);
        assert(p == q.push(list.last()));
        assert forall|i: int| 0 <= i < p.len() implies #[trigger] p[i] == app || list.contains(
            p[i],
        ) by {
            if i < q.len() {
                assert(p[i] == q[i]);
                if q[i] != app {
                    let k = choose|k: int| 0 <= k < h.len() && h[k] == q[i];
                    assert(list[k] == p[i]);
                }
            } else {
                assert(list[list.len() - 1] == p[i]);
            }
        }
        assert forall|i: int, j: int| 0 <= i < j < p.len() implies !app_precedes(
            #[trigger] p[j],
            #[trigger] p[i],
        ) by {
            if j < q.len() {
                assert(p[i] == q[i] && p[j] == q[j]);
            } else {
                assert(p[i] == q[i]);
                if q[i] == app {
                    lemma_app_order(app, list.last(), app);
                } else {
                    assert(h.contains(q[i]));
                    let k = choose|k: int| 0 <= k < h.len() && h[k] == q[i];
                    assert(list[k] == q[i]);
                    assert(list[list.len() - 1] == list.last());
                }
            }
        }
        assert(list.to_multiset() =~= h.to_multiset().insert(list.last()));
        assert(p.to_multiset() =~= q.to_multiset().insert(list.last()));
        assert(p.to_multiset() =~= list.to_multiset().insert(app));
    } else {
        assert forall|i: int, j: int| 0 <= i < j < p.len() implies !app_precedes(
            #[trigger] p[j],
            #[trigger] p[i],
        ) by {
            if j < list.len() {
                assert(p[i] == list[i] && p[j] == list[j]);
            } else {
                let last = list[list.len() - 1];
                lemma_app_order(list[i], last, app);
                if i < list.len() - 1 {
                    assert(!app_precedes(last, list[i]));
                } else {
                    assert(list[i] == last);
                }
            }
        }
        assert forall|i: int| 0 <= i < p.len() implies #[trigger] p[i] == app || list.contains(
            p[i],
        ) by {
            if i < list.len() {
                assert(list[i] == p[i]);
            }
        }
    }
}

/// The list is in order, and holds every application as often as it was given.
pub proof fn lemma_arranged(apps: Seq<Seq<char>>)
    ensures
        is_arranged(arranged(apps)),
        arranged(apps).to_multiset() == apps.to_multiset(),
    decreases apps.len(),
{
    broadcast use vstd::seq_lib::group_to_multiset_ensures;

    if apps.len() > 0 {
        lemma_arranged(apps.drop_last());
        lemma_placed(arranged(apps.drop_last()), apps.last());
        assert(apps.drop_last().push(apps.last()) =~= apps);
    } else {
        assert(arranged(apps) =~= apps);
    }
}

/// Named applications come before the rules that cover every binary.
pub proof fn lemma_catch_all_is_last(apps: Seq<Seq<char>>, i: int, j: int)
    requires
        0 <= i < j < arranged(apps).len(),
        arranged(apps)[i].len() == 0,
    ensures
        arranged(apps)[j].len() == 0,
{
    lemma_arranged(apps);
    let list = arranged(apps);
    assert(!app_precedes(list[j], list[i]));
}

/// Every rule has a group, and stands in it; and no application has two groups.
pub proof fn lemma_every_rule_is_listed(rs: Seq<Entry>, k: int)
    requires
        0 <= k < rs.len(),
    ensures
        apps_in_order(rs).no_duplicates(),
        apps_in_order(rs).contains(app_of(rs[k])),
        rules_of(rs, app_of(rs[k])).contains(rs[k]),
    decreases rs.len(),
{
    let h = rs.drop_last();
    let app = app_of(rs[k]);
    if h.len() > 0 {
        if k < h.len() {
            assert(h[k] == rs[k]);
            lemma_every_rule_is_listed(h, k);
        } else {
            lemma_every_rule_is_listed(h, 0);
        }
    } else {
        assert(apps_in_order(h) =~= Seq::<Seq<char>>::empty());
    }
    let before = apps_in_order(h);
    let after = apps_in_order(rs);
    let last = app_of(rs.last());
    if !before.contains(last) {
        assert forall|i: int, j: int| 0 <= i < after.len() && 0 <= j < after.len() && i
            != j implies after[i] != after[j] by {
            if i == before.len() {
                assert(before.contains(before[j]));
            } else if j == before.len() {
                assert(before.contains(before[i]));
            }
        }
        assert(after[before.len() as int] == last);
    }
    if before.contains(app) {
        let i = choose|i: int| 0 <= i < before.len() && before[i] == app;
        assert(after[i] == app);
    }
    let own = rules_of(h, app);
    if own.contains(rs[k]) {
        let i = choose|i: int| 0 <= i < own.len() && own[i] == rs[k];
        assert(rules_of(rs, app)[i] == rs[k]);
    }
    if k == rs.len() - 1 {
        assert(rules_of(rs, app).last() == rs[k]);
    }
}

} // verus!
