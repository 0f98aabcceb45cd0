//! Managing the rules of a policy file.
//!
//! The file is plain text and the single source of truth, so that an editor, a
//! script or a frontend can manage rules as well as this code can. Everything
//! here works on the text of the file and gives back the text to write: what is
//! not changed stays exactly as it was, comments and blank lines included.
use crate::addr::{ip_of, ip_text, parse_ip, push_ip};
use crate::line::{entry_line, entry_of, parse_line, scoped_of, split_scoped, Entry};
use crate::pattern::{opt_text, parse_pattern, pattern_of, Flaw, PatternError};
use crate::platform::lowercase;
use crate::target::{push_target, split_target_chars, target_of, target_text};
use crate::text::{
    appended, chars_of, closed, copy_chars, is_closed, joined, lemma_pieces, line_in, lines,
    lines_in, piece_line, pieces, push_chars, push_text, rows, same_chars, split_lines,
    split_pieces, string_of, word_is,
};
use crate::words::{kind_of, lower_chars, parse_kind, AttributionMode, Effect, Mode, Scope};
use vstd::prelude::*;

verus! {

// ---------------------------------------------------------------------------
// Canonical values.
// ---------------------------------------------------------------------------

/// A destination in its canonical spelling: the name in lower case.
pub open spec fn normal_host(v: Seq<char>) -> Seq<char> {
    let (h, port) = target_of(v);
    target_text(lowercase(h), port)
}

/// A destination in its canonical spelling: the address as it is printed. None
/// if it is not an address.
pub open spec fn normal_dest(v: Seq<char>) -> Option<Seq<char>> {
    let (h, port) = target_of(v);
    match ip_of(h) {
        Some(a) => Some(target_text(ip_text(a), port)),
        None => None,
    }
}

/// The canonical form of a rule's value.
///
/// Names are case-insensitive and addresses have more than one spelling, so
/// rules are compared by their canonical forms: two rules that mean the same are
/// the same rule. A value without a canonical form stands for itself.
pub open spec fn normal(kind: Seq<char>, v: Seq<char>) -> Seq<char> {
    match kind_of(kind) {
        Some((_, Scope::Host)) => normal_host(v),
        Some((_, Scope::Dest)) => match normal_dest(v) {
            Some(t) => t,
            None => v,
        },
        Some((_, Scope::HostFrom)) => match scoped_of(v) {
            Some((d, e)) => normal_host(d) + seq![' '] + e,
            None => v,
        },
        Some((_, Scope::DestFrom)) => match scoped_of(v) {
            Some((d, e)) => match normal_dest(d) {
                Some(t) => t + seq![' '] + e,
                None => v,
            },
            None => v,
        },
        Some((_, Scope::App)) => v,
        None => v,
    }
}

fn push_normal_host(out: &mut Vec<char>, v: &[char])
    ensures
        final(out)@ == old(out)@ + normal_host(v@),
{
    let (h, port) = split_target_chars(v);
    let low = lower_chars(&h);
    push_target(out, &low, port);
}

fn dest_chars(v: &[char]) -> (r: Option<Vec<char>>)
    ensures
        (match r {
            Some(t) => normal_dest(v@) == Some(t@),
            None => normal_dest(v@) is None,
        }),
{
    let (h, port) = split_target_chars(v);
    match parse_ip(&h) {
        Some(a) => {
            let mut spelled: Vec<char> = Vec::new();
            push_ip(&mut spelled, &a);
            assert(spelled@ =~= ip_text(a));
            let mut out: Vec<char> = Vec::new();
            push_target(&mut out, &spelled, port);
            assert(out@ =~= target_text(ip_text(a), port));
            Some(out)
        },
        None => None,
    }
}

/// The canonical form of a rule's value.
pub fn normalise_chars(kind: &[char], v: &[char]) -> (r: Vec<char>)
    ensures
        r@ == normal(kind@, v@),
{
    let mut out: Vec<char> = Vec::new();
    match parse_kind(kind) {
        Some((_, Scope::Host)) => {
            push_normal_host(&mut out, v);
            assert(out@ =~= normal(kind@, v@));
            out
        },
        Some((_, Scope::Dest)) => match dest_chars(v) {
            Some(t) => t,
            None => copy_chars(v),
        },
        Some((_, Scope::HostFrom)) => match split_scoped(v) {
            Some((d, e)) => {
                push_normal_host(&mut out, &d);
                out.push(' ');
                push_chars(&mut out, &e);
                assert(out@ =~= normal(kind@, v@));
                out
            },
            None => copy_chars(v),
        },
        Some((_, Scope::DestFrom)) => match split_scoped(v) {
            Some((d, e)) => match dest_chars(&d) {
                Some(t) => {
                    push_chars(&mut out, &t);
                    out.push(' ');
                    push_chars(&mut out, &e);
                    assert(out@ =~= normal(kind@, v@));
                    out
                },
                None => copy_chars(v),
            },
            None => copy_chars(v),
        },
        _ => copy_chars(v),
    }
}

/// The canonical form of a rule's value.
pub fn normalise(kind: &str, value: &str) -> (r: String)
    ensures
        r@ == normal(kind@, value@),
{
    string_of(&normalise_chars(&chars_of(kind), &chars_of(value)))
}

// ---------------------------------------------------------------------------
// Listing.
// ---------------------------------------------------------------------------

/// One rule as it appears in the file, with its trailing comment.
#[derive(Debug)]
pub struct Rule {
    pub kind: String,
    pub value: String,
    pub comment: Option<String>,
}

impl View for Rule {
    type V = Entry;

    open spec fn view(&self) -> Entry {
        Entry {
            key: self.kind@,
            value: self.value@,
            comment: match self.comment {
                Some(c) => Some(c@),
                None => None,
            },
        }
    }
}

/// The rule on a line, if there is one.
pub open spec fn rule_of(raw: Seq<char>) -> Option<Entry> {
    match entry_of(raw) {
        Some(e) => if kind_of(e.key) is Some {
            Some(e)
        } else {
            None
        },
        None => None,
    }
}

/// The rules on some lines, in order.
pub open spec fn rules_in(ls: Seq<Seq<char>>) -> Seq<Entry>
    decreases ls.len(),
{
    if ls.len() == 0 {
        Seq::empty()
    } else {
        let before = rules_in(ls.drop_last());
        match rule_of(ls.last()) {
            Some(e) => before.push(e),
            None => before,
        }
    }
}

/// Rules as values.
pub open spec fn rule_views(v: Seq<Rule>) -> Seq<Entry> {
    Seq::new(v.len(), |i: int| v[i]@)
}

fn parse_rule(raw: &[char]) -> (r: Option<Rule>)
    ensures
        (match r {
            Some(rule) => rule_of(raw@) == Some(rule@),
            None => rule_of(raw@) is None,
        }),
{
    match parse_line(raw) {
        Some((k, v, c)) => {
            if parse_kind(&k).is_some() {
                let comment = match &c {
                    Some(t) => Some(string_of(t)),
                    None => None,
                };
                Some(Rule { kind: string_of(&k), value: string_of(&v), comment })
            } else {
                None
            }
        },
        None => None,
    }
}

/// Every rule in a policy file, in file order.
pub fn rules(text: &str) -> (r: Vec<Rule>)
    ensures
        rule_views(r@) == rules_in(lines(text@)),
{
    let ls = split_lines(&chars_of(text));
    let mut out: Vec<Rule> = Vec::new();
    let n: usize = ls.len();
    let ghost all = lines(text@);
    proof {
        assert(all.take(0) =~= Seq::<Seq<char>>::empty());
        assert(rule_views(out@) =~= rules_in(all.take(0)));
    }
    for i in 0..n
        invariant
            n == ls@.len(),
            all == rows(ls@),
            rule_views(out@) == rules_in(all.take(i as int)),
    {
        let ghost before = out@;
        proof {
            assert(all.take(i + 1).drop_last() =~= all.take(i as int));
            assert(all.take(i + 1).last() == ls@[i as int]@);
        }
        if let Some(rule) = parse_rule(&ls[i]) {
            out.push(rule);
            proof {
                assert(rule_views(out@) =~= rule_views(before).push(rule@));
            }
        }
    }
    proof {
        assert(all.take(n as int) =~= all);
    }
    out
}

// ---------------------------------------------------------------------------
// Adding.
// ---------------------------------------------------------------------------

/// Why a rule cannot be added.
#[derive(Debug)]
pub enum RuleError {
    /// No such rule type.
    UnknownKind,
    /// A scoped rule without both a destination and a binary.
    Incomplete,
    /// What was given is not an address; names need another rule type.
    NotAnAddress { given: String, instead: String },
}

/// A refusal as a value.
pub ghost enum RefusalView {
    UnknownKind,
    Incomplete,
    NotAnAddress(Seq<char>, Seq<char>),
}

impl View for RuleError {
    type V = RefusalView;

    open spec fn view(&self) -> RefusalView {
        match *self {
            RuleError::UnknownKind => RefusalView::UnknownKind,
            RuleError::Incomplete => RefusalView::Incomplete,
            RuleError::NotAnAddress { given, instead } => RefusalView::NotAnAddress(
                given@,
                instead@,
            ),
        }
    }
}

/// Why a rule is refused, if it is. An address rule needs an address, and a
/// scoped rule needs a destination and a binary.
pub open spec fn refusal(kind: Seq<char>, v: Seq<char>) -> Option<RefusalView> {
    match kind_of(kind) {
        None => Some(RefusalView::UnknownKind),
        Some((effect, scope)) => match pattern_of(scope, v) {
            Ok(_) => None,
            Err(Flaw::Incomplete) => Some(RefusalView::Incomplete),
            Err(Flaw::BadAddress(a)) => Some(
                if scope == Scope::Dest {
                    RefusalView::NotAnAddress(
                        v,
                        if effect == Effect::Deny {
                            "deny-host"@
                        } else {
                            "allow-host"@
                        },
                    )
                } else {
                    RefusalView::NotAnAddress(a, "the -host-from form"@)
                },
            ),
        },
    }
}

/// Does a line hold the rule of this type and canonical value?
pub open spec fn holds_rule(raw: Seq<char>, kind: Seq<char>, norm: Seq<char>) -> bool {
    match entry_of(raw) {
        Some(e) => e.key == kind && normal(e.key, e.value) == norm,
        None => false,
    }
}

/// Is a rule in the file already?
pub open spec fn is_present(ls: Seq<Seq<char>>, kind: Seq<char>, norm: Seq<char>) -> bool {
    exists|i: int| 0 <= i < ls.len() && holds_rule(#[trigger] ls[i], kind, norm)
}

fn line_holds_rule(raw: &[char], kind: &[char], norm: &[char]) -> (r: bool)
    ensures
        r == holds_rule(raw@, kind@, norm@),
{
    match parse_line(raw) {
        Some((k, v, _)) => same_chars(&k, kind) && same_chars(&normalise_chars(&k, &v), norm),
        None => false,
    }
}

/// The line that a rule is added as: its value in canonical form, and the note as
/// a comment.
pub open spec fn rule_line(kind: Seq<char>, v: Seq<char>, note: Option<Seq<char>>) -> Seq<char> {
    entry_line(kind, normal(kind, v), note)
}

/// Add a rule to a policy file.
///
/// The result is what to append to the file, or nothing if an equivalent rule is
/// in it already: adding twice is no error and writes nothing. The rule stands on
/// a line of its own, also where the last line of the file was not ended.
pub fn add_rule(text: &str, kind: &str, value: &str, note: Option<&str>) -> (r: Result<
    Option<String>,
    RuleError,
>)
    ensures
        (match r {
            Err(e) => refusal(kind@, value@) == Some(e@),
            Ok(None) => refusal(kind@, value@) is None && is_present(
                lines(text@),
                kind@,
                normal(kind@, value@),
            ),
            Ok(Some(tail)) => {
                &&& refusal(kind@, value@) is None
                &&& !is_present(lines(text@), kind@, normal(kind@, value@))
                &&& tail@ == addition(text@, rule_line(kind@, value@, opt_text(note)))
                &&& text@ + tail@ == appended(text@, rule_line(kind@, value@, opt_text(note)))
            },
        }),
{
    let k = chars_of(kind);
    let v = chars_of(value);
    match parse_kind(&k) {
        None => return Err(RuleError::UnknownKind),
        Some((effect, scope)) => match parse_pattern(scope, &v) {
            Ok(_) => {},
            Err(PatternError::Incomplete) => return Err(RuleError::Incomplete),
            Err(PatternError::BadAddress(a)) => {
                return Err(
                    if scope == Scope::Dest {
                        RuleError::NotAnAddress {
                            given: value.to_owned(),
                            instead: if effect == Effect::Deny {
                                "deny-host".to_owned()
                            } else {
                                "allow-host".to_owned()
                            },
                        }
                    } else {
                        RuleError::NotAnAddress {
                            given: a,
                            instead: "the -host-from form".to_owned(),
                        }
                    },
                );
            },
        },
    }
    let norm = normalise_chars(&k, &v);
    let all_chars = chars_of(text);
    let ls = split_lines(&all_chars);
    let n: usize = ls.len();
    let ghost all = lines(text@);
    for i in 0..n
        invariant
            n == ls@.len(),
            all == rows(ls@),
            all == lines(text@),
            k@ == kind@,
            v@ == value@,
            norm@ == normal(kind@, value@),
            refusal(kind@, value@) is None,
            forall|j: int| 0 <= j < i ==> !holds_rule(#[trigger] all[j], kind@, norm@),
    {
        assert(all[i as int] == ls@[i as int]@);
        if line_holds_rule(&ls[i], &k, &norm) {
            return Ok(None);
        }
    }
    let mut out: Vec<char> = Vec::new();
    push_chars(&mut out, &k);
    out.push(' ');
    push_chars(&mut out, &norm);
    if let Some(t) = note {
        out.push('\t');
        out.push('#');
        out.push(' ');
        push_text(&mut out, t);
    }
    assert(out@ =~= rule_line(kind@, value@, opt_text(note)));
    proof {
        lemma_addition(text@, out@);
    }
    Ok(Some(string_of(&addition_chars(&all_chars, &out))))
}

// ---------------------------------------------------------------------------
// Removing.
// ---------------------------------------------------------------------------

/// The lines that a predicate does not pick out, in order.
pub open spec fn without(ls: Seq<Seq<char>>, drop: spec_fn(Seq<char>) -> bool) -> Seq<Seq<char>>
    decreases ls.len(),
{
    if ls.len() == 0 {
        Seq::empty()
    } else {
        let before = without(ls.drop_last(), drop);
        if drop(ls.last()) {
            before
        } else {
            before.push(ls.last())
        }
    }
}

/// The pieces whose lines a predicate picks out.
pub open spec fn in_pieces(pick: spec_fn(Seq<char>) -> bool) -> spec_fn(Seq<char>) -> bool {
    |p: Seq<char>| pick(line_in(p))
}

/// A file without the lines that a predicate picks out. Every other line stays as
/// it is, to the byte, with the ending it has.
pub open spec fn rewritten(text: Seq<char>, drop: spec_fn(Seq<char>) -> bool) -> Seq<char> {
    joined(without(pieces(text), in_pieces(drop)))
}

/// The lines that hold one rule.
pub open spec fn rule_lines(kind: Seq<char>, norm: Seq<char>) -> spec_fn(Seq<char>) -> bool {
    |raw: Seq<char>| holds_rule(raw, kind, norm)
}

/// Does a line belong to one binary: a rule for it, or its pinned identity?
pub open spec fn belongs(raw: Seq<char>, exe: Seq<char>) -> bool {
    match entry_of(raw) {
        Some(e) => match kind_of(e.key) {
            Some((_, Scope::App)) => e.value == exe,
            Some((_, Scope::HostFrom)) => is_scoped_to(e.value, exe),
            Some((_, Scope::DestFrom)) => is_scoped_to(e.value, exe),
            Some(_) => false,
            None => e.key == "app-id"@ && is_scoped_to(e.value, exe),
        },
        None => false,
    }
}

/// Is this scoped value about one binary?
pub open spec fn is_scoped_to(v: Seq<char>, exe: Seq<char>) -> bool {
    match scoped_of(v) {
        Some((_, e)) => e == exe,
        None => false,
    }
}

/// The lines that belong to one binary.
pub open spec fn app_lines(exe: Seq<char>) -> spec_fn(Seq<char>) -> bool {
    |raw: Seq<char>| belongs(raw, exe)
}

/// Does a line permit or forbid something, or pin an identity?
pub open spec fn grants(raw: Seq<char>) -> bool {
    match entry_of(raw) {
        Some(e) => kind_of(e.key) is Some || e.key == "app-id"@,
        None => false,
    }
}

/// The lines that permit, forbid or pin.
pub open spec fn grant_lines() -> spec_fn(Seq<char>) -> bool {
    |raw: Seq<char>| grants(raw)
}

/// Dropping lines never makes a file longer.
pub proof fn lemma_without_len(ls: Seq<Seq<char>>, drop: spec_fn(Seq<char>) -> bool)
    ensures
        without(ls, drop).len() <= ls.len(),
    decreases ls.len(),
{
    if ls.len() > 0 {
        lemma_without_len(ls.drop_last(), drop);
    }
}

/// The lines in the pieces that are left are the lines that are left.
pub proof fn lemma_without_pieces(ps: Seq<Seq<char>>, drop: spec_fn(Seq<char>) -> bool)
    ensures
        lines_in(without(ps, in_pieces(drop))) == without(lines_in(ps), drop),
    decreases ps.len(),
{
    let left = without(ps, in_pieces(drop));
    if ps.len() > 0 {
        let h = ps.drop_last();
        lemma_without_pieces(h, drop);
        assert(lines_in(ps).drop_last() =~= lines_in(h));
        assert(lines_in(ps).last() == line_in(ps.last()));
        let before = without(h, in_pieces(drop));
        assert(lines_in(before.push(ps.last())) =~= lines_in(before).push(line_in(ps.last())));
    } else {
        assert(lines_in(left) =~= without(lines_in(ps), drop));
    }
}

/// Drop every rule of this type and value. The result is how many lines went and
/// the text that is left.
pub fn remove_rule(text: &str, kind: &str, value: &str) -> (r: (usize, String))
    ensures
        r.1@ == rewritten(text@, rule_lines(kind@, normal(kind@, value@))),
        r.0 == lines(text@).len() - without(
            lines(text@),
            rule_lines(kind@, normal(kind@, value@)),
        ).len(),
{
    let k = chars_of(kind);
    let norm = normalise_chars(&k, &chars_of(value));
    let ps = split_pieces(&chars_of(text));
    let mut out: Vec<char> = Vec::new();
    let mut removed: usize = 0;
    let n: usize = ps.len();
    let ghost all = pieces(text@);
    let ghost drop = rule_lines(kind@, norm@);
    proof {
        assert(all.take(0) =~= Seq::<Seq<char>>::empty());
        assert(out@ =~= joined(without(all.take(0), in_pieces(drop))));
    }
    for i in 0..n
        invariant
            n == ps@.len(),
            all == rows(ps@),
            drop == rule_lines(k@, norm@),
            removed <= i,
            removed == i - without(all.take(i as int), in_pieces(drop)).len(),
            out@ == joined(without(all.take(i as int), in_pieces(drop))),
    {
        let ghost kept = without(all.take(i as int), in_pieces(drop));
        proof {
            assert(all.take(i + 1).drop_last() =~= all.take(i as int));
            assert(all.take(i + 1).last() == ps@[i as int]@);
            assert(kept.push(ps@[i as int]@).drop_last() =~= kept);
        }
        if line_holds_rule(piece_line(&ps[i]), &k, &norm) {
            removed = removed + 1;
        } else {
            push_chars(&mut out, &ps[i]);
            assert(out@ =~= joined(kept.push(ps@[i as int]@)));
        }
    }
    proof {
        assert(all.take(n as int) =~= all);
        lemma_pieces(text@);
        lemma_without_pieces(all, drop);
    }
    (removed, string_of(&out))
}

fn scoped_to(v: &[char], exe: &[char]) -> (r: bool)
    ensures
        r == is_scoped_to(v@, exe@),
{
    match split_scoped(v) {
        Some((_, e)) => same_chars(&e, exe),
        None => false,
    }
}

fn line_belongs(raw: &[char], exe: &[char]) -> (r: bool)
    ensures
        r == belongs(raw@, exe@),
{
    match parse_line(raw) {
        Some((k, v, _)) => match parse_kind(&k) {
            Some((_, Scope::App)) => same_chars(&v, exe),
            Some((_, Scope::HostFrom)) => scoped_to(&v, exe),
            Some((_, Scope::DestFrom)) => scoped_to(&v, exe),
            Some(_) => false,
            None => word_is(&k, "app-id") && scoped_to(&v, exe),
        },
        None => false,
    }
}

/// Drop every rule that belongs to one binary, and its pinned identity. The
/// result is how many lines went and the text that is left.
pub fn remove_app(text: &str, exe: &str) -> (r: (usize, String))
    ensures
        r.1@ == rewritten(text@, app_lines(exe@)),
        r.0 == lines(text@).len() - without(lines(text@), app_lines(exe@)).len(),
{
    let e = chars_of(exe);
    let ps = split_pieces(&chars_of(text));
    let mut out: Vec<char> = Vec::new();
    let mut removed: usize = 0;
    let n: usize = ps.len();
    let ghost all = pieces(text@);
    let ghost drop = app_lines(exe@);
    proof {
        assert(all.take(0) =~= Seq::<Seq<char>>::empty());
        assert(out@ =~= joined(without(all.take(0), in_pieces(drop))));
    }
    for i in 0..n
        invariant
            n == ps@.len(),
            all == rows(ps@),
            drop == app_lines(e@),
            removed <= i,
            removed == i - without(all.take(i as int), in_pieces(drop)).len(),
            out@ == joined(without(all.take(i as int), in_pieces(drop))),
    {
        let ghost kept = without(all.take(i as int), in_pieces(drop));
        proof {
            assert(all.take(i + 1).drop_last() =~= all.take(i as int));
            assert(all.take(i + 1).last() == ps@[i as int]@);
            assert(kept.push(ps@[i as int]@).drop_last() =~= kept);
        }
        if line_belongs(piece_line(&ps[i]), &e) {
            removed = removed + 1;
        } else {
            push_chars(&mut out, &ps[i]);
            assert(out@ =~= joined(kept.push(ps@[i as int]@)));
        }
    }
    proof {
        assert(all.take(n as int) =~= all);
        lemma_pieces(text@);
        lemma_without_pieces(all, drop);
    }
    (removed, string_of(&out))
}

fn line_grants(raw: &[char]) -> (r: bool)
    ensures
        r == grants(raw@),
{
    match parse_line(raw) {
        Some((k, _, _)) => parse_kind(&k).is_some() || word_is(&k, "app-id"),
        None => false,
    }
}

/// Drop every rule and every pinned identity, keeping the settings that are not
/// rules. The result is how many lines went and the text that is left.
pub fn clear_rules(text: &str) -> (r: (usize, String))
    ensures
        r.1@ == rewritten(text@, grant_lines()),
        r.0 == lines(text@).len() - without(lines(text@), grant_lines()).len(),
{
    let ps = split_pieces(&chars_of(text));
    let mut out: Vec<char> = Vec::new();
    let mut removed: usize = 0;
    let n: usize = ps.len();
    let ghost all = pieces(text@);
    let ghost drop = grant_lines();
    proof {
        assert(all.take(0) =~= Seq::<Seq<char>>::empty());
        assert(out@ =~= joined(without(all.take(0), in_pieces(drop))));
    }
    for i in 0..n
        invariant
            n == ps@.len(),
            all == rows(ps@),
            drop == grant_lines(),
            removed <= i,
            removed == i - without(all.take(i as int), in_pieces(drop)).len(),
            out@ == joined(without(all.take(i as int), in_pieces(drop))),
    {
        let ghost kept = without(all.take(i as int), in_pieces(drop));
        proof {
            assert(all.take(i + 1).drop_last() =~= all.take(i as int));
            assert(all.take(i + 1).last() == ps@[i as int]@);
            assert(kept.push(ps@[i as int]@).drop_last() =~= kept);
        }
        if line_grants(piece_line(&ps[i])) {
            removed = removed + 1;
        } else {
            push_chars(&mut out, &ps[i]);
            assert(out@ =~= joined(kept.push(ps@[i as int]@)));
        }
    }
    proof {
        assert(all.take(n as int) =~= all);
        lemma_pieces(text@);
        lemma_without_pieces(all, drop);
    }
    (removed, string_of(&out))
}

// ---------------------------------------------------------------------------
// Settings.
// ---------------------------------------------------------------------------

/// Is this line a setting with the given key?
pub open spec fn sets(raw: Seq<char>, key: Seq<char>) -> bool {
    match entry_of(raw) {
        Some(e) => e.key == key,
        None => false,
    }
}

/// The lines that set a key.
pub open spec fn setters(key: Seq<char>) -> spec_fn(Seq<char>) -> bool {
    |raw: Seq<char>| sets(raw, key)
}

/// Is some item picked out?
pub open spec fn any_picked(ls: Seq<Seq<char>>, pick: spec_fn(Seq<char>) -> bool) -> bool
    decreases ls.len(),
{
    ls.len() > 0 && (pick(ls.last()) || any_picked(ls.drop_last(), pick))
}

/// The items with the first one that is picked out replaced and the others that
/// are picked out gone.
pub open spec fn replaced(
    ls: Seq<Seq<char>>,
    pick: spec_fn(Seq<char>) -> bool,
    new: Seq<char>,
) -> Seq<Seq<char>>
    decreases ls.len(),
{
    if ls.len() == 0 {
        Seq::empty()
    } else {
        let before = replaced(ls.drop_last(), pick, new);
        if !pick(ls.last()) {
            before.push(ls.last())
        } else if any_picked(ls.drop_last(), pick) {
            before
        } else {
            before.push(new)
        }
    }
}

/// A file with a key set exactly once: where it was set first, else at the end.
/// Every line that does not set the key stays as it is, with the ending it has.
pub open spec fn with_setting(text: Seq<char>, key: Seq<char>, line: Seq<char>) -> Seq<char> {
    let pick = in_pieces(setters(key));
    if any_picked(pieces(text), pick) {
        joined(replaced(pieces(text), pick, line.push('\n')))
    } else {
        appended(text, line)
    }
}

/// The line that sets a key.
pub open spec fn setting_line(key: Seq<char>, value: Seq<char>) -> Seq<char> {
    entry_line(key, value, None)
}

proof fn lemma_none_picked(ls: Seq<Seq<char>>, pick: spec_fn(Seq<char>) -> bool, new: Seq<char>)
    requires
        !any_picked(ls, pick),
    ensures
        replaced(ls, pick, new) == ls,
    decreases ls.len(),
{
    if ls.len() > 0 {
        lemma_none_picked(ls.drop_last(), pick, new);
        assert(ls.drop_last().push(ls.last()) =~= ls);
    } else {
        assert(replaced(ls, pick, new) =~= ls);
    }
}

fn put_setting(text: &str, key: &str, value: &str) -> (r: String)
    ensures
        r@ == with_setting(text@, key@, setting_line(key@, value@)),
{
    let k = chars_of(key);
    let mut line: Vec<char> = Vec::new();
    push_chars(&mut line, &k);
    line.push(' ');
    push_text(&mut line, value);
    assert(line@ =~= setting_line(key@, value@));
    line.push('\n');
    let all_chars = chars_of(text);
    let ps = split_pieces(&all_chars);
    let mut out: Vec<char> = Vec::new();
    let mut written = false;
    let n: usize = ps.len();
    let ghost all = pieces(text@);
    let ghost pick = in_pieces(setters(key@));
    let ghost new = setting_line(key@, value@).push('\n');
    proof {
        assert(all.take(0) =~= Seq::<Seq<char>>::empty());
        assert(out@ =~= joined(replaced(all.take(0), pick, new)));
    }
    for i in 0..n
        invariant
            n == ps@.len(),
            all == rows(ps@),
            k@ == key@,
            pick == in_pieces(setters(key@)),
            line@ == new,
            written == any_picked(all.take(i as int), pick),
            out@ == joined(replaced(all.take(i as int), pick, new)),
    {
        let ghost kept = replaced(all.take(i as int), pick, new);
        proof {
            assert(all.take(i + 1).drop_last() =~= all.take(i as int));
            assert(all.take(i + 1).last() == ps@[i as int]@);
            assert(kept.push(ps@[i as int]@).drop_last() =~= kept);
            assert(kept.push(new).drop_last() =~= kept);
        }
        let hit = match parse_line(piece_line(&ps[i])) {
            Some((lk, _, _)) => same_chars(&lk, &k),
            None => false,
        };
        assert(hit == pick(ps@[i as int]@));
        if hit {
            if !written {
                push_chars(&mut out, &line);
                written = true;
                assert(out@ =~= joined(kept.push(new)));
            }
        } else {
            push_chars(&mut out, &ps[i]);
            assert(out@ =~= joined(kept.push(ps@[i as int]@)));
        }
    }
    proof {
        assert(all.take(n as int) =~= all);
    }
    if !written {
        proof {
            lemma_none_picked(all, pick, new);
            lemma_pieces(text@);
            assert(out@ == text@);
        }
        let m: usize = out.len();
        if m > 0 && out[m - 1] != '\n' {
            out.push('\n');
        }
        assert(out@ =~= closed(text@));
        push_chars(&mut out, &line);
        assert(out@ =~= appended(text@, setting_line(key@, value@)));
    }
    string_of(&out)
}

/// The policy file with the mode set, replacing any earlier setting: repeated
/// switching leaves no stack of stale lines behind.
pub fn set_mode(text: &str, mode: Mode) -> (r: String)
    ensures
        r@ == with_setting(text@, "mode"@, setting_line("mode"@, mode.name())),
{
    put_setting(text, "mode", mode.as_str())
}

/// The policy file with the attribution backend set, replacing any earlier
/// setting.
pub fn set_attribution(text: &str, backend: AttributionMode) -> (r: String)
    ensures
        r@ == with_setting(
            text@,
            "attribution"@,
            setting_line("attribution"@, backend.name()),
        ),
{
    put_setting(text, "attribution", backend.as_str())
}

// ---------------------------------------------------------------------------
// Appending.
// ---------------------------------------------------------------------------

/// What has to be written behind a file so that a line stands in it on its own:
/// the line and its ending, and the ending of the last line where it has none.
pub open spec fn addition(text: Seq<char>, line: Seq<char>) -> Seq<char> {
    if is_closed(text) {
        line.push('\n')
    } else {
        seq!['\n'] + line.push('\n')
    }
}

fn addition_chars(text: &[char], line: &[char]) -> (r: Vec<char>)
    ensures
        r@ == addition(text@, line@),
{
    let mut out: Vec<char> = Vec::new();
    let n: usize = text.len();
    if n > 0 && text[n - 1] != '\n' {
        out.push('\n');
    }
    push_chars(&mut out, line);
    out.push('\n');
    assert(out@ =~= addition(text@, line@));
    out
}

/// What to append to a policy file so that a line stands in it on its own.
pub fn append_line(text: &str, line: &str) -> (r: String)
    ensures
        r@ == addition(text@, line@),
        text@ + r@ == appended(text@, line@),
{
    let r = addition_chars(&chars_of(text), &chars_of(line));
    proof {
        lemma_addition(text@, line@);
    }
    string_of(&r)
}

/// A text and what is written behind it are the text with the line appended.
pub proof fn lemma_addition(text: Seq<char>, line: Seq<char>)
    ensures
        text + addition(text, line) == appended(text, line),
{
    assert(text + addition(text, line) =~= appended(text, line));
}

} // verus!
