//! What the lines of a policy file are to the commands that change it.
use crate::line::{
    body_of, comment_of, entry_line, entry_of, is_value, is_word, key_of, scoped_of, value_of,
    Entry,
};
use crate::pattern::{pattern_of, Flaw, PatternView};
use crate::platform::lowercase;
use crate::policy::{directive, directive_of, loaded, DirectiveView};
use crate::policy_laws::{lemma_lines_by_parts, says};
use crate::rulefile::{
    addition, any_picked, belongs, grants, holds_rule, is_present, normal, refusal, replaced,
    rewritten, rule_lines, rule_of, rules_in, sets, setting_line, without, RefusalView,
};
use crate::rulefile_laws::{
    lemma_kept_exactly, lemma_rewritten_lines, lemma_same_pattern_same_form,
};
use crate::target::{target_of, target_text};
use crate::text::{
    holds, is_trimmed, is_white, just, lemma_find, lemma_find_is, lemma_trim_around, lines, trim,
    white,
};
use crate::words::{kind_of, Effect, Scope};
use vstd::prelude::*;

verus! {

// ---------------------------------------------------------------------------
// Lines.
// ---------------------------------------------------------------------------

/// The white space of Unicode.
pub proof fn lemma_white_space(c: char)
    ensures
        is_white(c) <==> {
            ||| '\u{9}' <= c <= '\u{d}'
            ||| c == ' '
            ||| c == '\u{85}'
            ||| c == '\u{a0}'
            ||| c == '\u{1680}'
            ||| '\u{2000}' <= c <= '\u{200a}'
            ||| c == '\u{2028}'
            ||| c == '\u{2029}'
            ||| c == '\u{202f}'
            ||| c == '\u{205f}'
            ||| c == '\u{3000}'
        },
{
}

/// Is this text made of white space, without a line feed?
pub open spec fn is_blank(s: Seq<char>) -> bool {
    forall|i: int| 0 <= i < s.len() ==> is_white(#[trigger] s[i]) && s[i] != '\n'
}

proof fn lemma_body_between(a: Seq<char>, body: Seq<char>, c: Seq<char>, note: Option<Seq<char>>)
    requires
        is_blank(a),
        is_blank(c),
        body.len() > 0,
        is_trimmed(body),
        !holds(body, just('#')),
    ensures
        ({
            let raw = match note {
                Some(n) => a + body + c + seq!['#'] + n,
                None => a + body + c,
            };
            &&& body_of(raw) == body
            &&& comment_of(raw) == (match note {
                Some(n) => Some(trim(n)),
                None => None,
            })
        }),
{
    let hash = just('#');
    let plain = a + body + c;
    let raw = match note {
        Some(n) => plain + seq!['#'] + n,
        None => plain,
    };
    let n = plain.len() as int;
    assert forall|i: int| 0 <= i < n implies !hash(#[trigger] raw[i]) by {
        assert(raw[i] == plain[i]);
        if i < a.len() {
            assert(plain[i] == a[i]);
        } else if i < a.len() + body.len() {
            assert(plain[i] == body[i - a.len()]);
            assert(!hash(body[i - a.len()]));
        } else {
            assert(plain[i] == c[i - a.len() - body.len()]);
        }
    }
    lemma_find_is(raw, hash, n);
    assert(raw.take(n) =~= plain);
    lemma_trim_around(a, body, c);
    if let Some(t) = note {
        assert(raw.skip(n + 1) =~= t);
    }
}

proof fn lemma_parts_of_body(k: Seq<char>, b: Seq<char>, v: Seq<char>)
    requires
        is_word(k),
        is_blank(b),
        b.len() > 0,
        is_value(v),
    ensures
        ({
            let body = k + b + v;
            &&& body.len() > 0
            &&& is_trimmed(body)
            &&& !holds(body, just('#'))
            &&& key_of(body) == k
            &&& value_of(body) == v
        }),
{
    let body = k + b + v;
    let n = k.len() as int;
    assert(!white()(k[0]));
    assert(body[0] == k[0] && body.last() == v.last());
    assert forall|i: int| 0 <= i < body.len() implies !just('#')(#[trigger] body[i]) by {
        if i < n {
            assert(body[i] == k[i]);
            assert(!just('#')(k[i]));
        } else if i < n + b.len() {
            assert(body[i] == b[i - n]);
        } else {
            assert(body[i] == v[i - n - b.len()]);
            assert(!just('#')(v[i - n - b.len()]));
        }
    }
    assert forall|i: int| 0 <= i < n implies !white()(#[trigger] body[i]) by {
        assert(body[i] == k[i]);
        assert(!white()(k[i]));
    }
    assert(body[n] == b[0]);
    lemma_find_is(body, white(), n);
    assert(body.take(n) =~= k);
    let rest = b.skip(1);
    assert(body.skip(n + 1) =~= rest + v + Seq::<char>::empty());
    assert forall|i: int| 0 <= i < rest.len() implies is_white(#[trigger] rest[i]) by {
        assert(rest[i] == b[i + 1]);
    }
    lemma_trim_around(rest, v, Seq::empty());
}

/// White space in front of a key, between a key and its value, and behind the value
/// does not matter, and neither does a comment.
pub proof fn lemma_white_space_is_free(
    a: Seq<char>,
    k: Seq<char>,
    b: Seq<char>,
    v: Seq<char>,
    c: Seq<char>,
    note: Option<Seq<char>>,
)
    requires
        is_blank(a),
        is_word(k),
        is_blank(b),
        b.len() > 0,
        is_value(v),
        is_blank(c),
    ensures
        ({
            let raw = match note {
                Some(n) => a + (k + b + v) + c + seq!['#'] + n,
                None => a + (k + b + v) + c,
            };
            &&& directive(raw) == directive_of(k, v)
            &&& entry_of(raw) == Some(
                Entry {
                    key: k,
                    value: v,
                    comment: match note {
                        Some(n) => Some(trim(n)),
                        None => None,
                    },
                },
            )
        }),
{
    lemma_parts_of_body(k, b, v);
    lemma_body_between(a, k + b + v, c, note);
}

/// What a line is to the commands: its first word says whether it is a rule, a
/// setting or the identity of a binary, and it has to have a value.
pub proof fn lemma_what_lines_are(raw: Seq<char>, key: Seq<char>, exe: Seq<char>)
    ensures
        ({
            let body = body_of(raw);
            let k = key_of(body);
            let v = value_of(body);
            let full = body.len() > 0 && v.len() > 0;
            let scoped = scoped_of(v) matches Some((_, e)) && e == exe;
            &&& entry_of(raw) is Some <==> full
            &&& entry_of(raw) matches Some(e) ==> e.key == k && e.value == v && e.comment
                == comment_of(raw)
            &&& rule_of(raw) == (if full && kind_of(k) is Some {
                entry_of(raw)
            } else {
                None
            })
            &&& sets(raw, key) <==> full && k == key
            &&& grants(raw) <==> full && (kind_of(k) is Some || k == "app-id"@)
            &&& holds_rule(raw, key, exe) <==> full && k == key && normal(k, v) == exe
            &&& belongs(raw, exe) <==> full && (match kind_of(k) {
                Some((_, Scope::App)) => v == exe,
                Some((_, Scope::HostFrom)) => scoped,
                Some((_, Scope::DestFrom)) => scoped,
                Some((_, Scope::Host)) => false,
                Some((_, Scope::Dest)) => false,
                None => k == "app-id"@ && scoped,
            })
        }),
{
}

/// The rules of a file are listed one after the other: those of its first lines,
/// and then those of the others. A line that is no rule adds none.
pub proof fn lemma_rules_are_listed_in_order(a: Seq<Seq<char>>, l: Seq<char>, b: Seq<Seq<char>>)
    ensures
        rules_in(a + b) == rules_in(a) + rules_in(b),
        rules_in(seq![l]) == (match rule_of(l) {
            Some(e) => seq![e],
            None => Seq::empty(),
        }),
        rules_in(Seq::empty()) == Seq::<Entry>::empty(),
    decreases b.len(),
{
    assert(seq![l].drop_last() =~= Seq::<Seq<char>>::empty());
    assert(rules_in(Seq::<Seq<char>>::empty()) =~= Seq::<Entry>::empty());
    assert(seq![l].last() == l);
    if let Some(e) = rule_of(l) {
        assert(Seq::<Entry>::empty().push(e) =~= seq![e]);
    }
    if b.len() == 0 {
        assert(a + b =~= a);
        assert(rules_in(a) + rules_in(b) =~= rules_in(a));
    } else {
        lemma_rules_are_listed_in_order(a, l, b.drop_last());
        assert((a + b).drop_last() =~= a + b.drop_last());
        assert((a + b).last() == b.last());
        assert(rules_in(a + b) =~= rules_in(a) + rules_in(b));
    }
}

/// What is left of some lines is what is left of the first and then of the others;
/// a line is left exactly if it is not picked out.
pub proof fn lemma_lines_are_kept_in_order(
    a: Seq<Seq<char>>,
    l: Seq<char>,
    b: Seq<Seq<char>>,
    drop: spec_fn(Seq<char>) -> bool,
)
    ensures
        without(a + b, drop) == without(a, drop) + without(b, drop),
        without(seq![l], drop) == (if drop(l) {
            Seq::<Seq<char>>::empty()
        } else {
            seq![l]
        }),
        without(Seq::empty(), drop) == Seq::<Seq<char>>::empty(),
    decreases b.len(),
{
    assert(seq![l].drop_last() =~= Seq::<Seq<char>>::empty());
    assert(without(Seq::<Seq<char>>::empty(), drop) =~= Seq::<Seq<char>>::empty());
    assert(seq![l].last() == l);
    assert(Seq::<Seq<char>>::empty().push(l) =~= seq![l]);
    if b.len() == 0 {
        assert(a + b =~= a);
        assert(without(a, drop) + without(b, drop) =~= without(a, drop));
    } else {
        lemma_lines_are_kept_in_order(a, l, b.drop_last(), drop);
        assert((a + b).drop_last() =~= a + b.drop_last());
        assert((a + b).last() == b.last());
        assert(without(a + b, drop) =~= without(a, drop) + without(b, drop));
    }
}

// ---------------------------------------------------------------------------
// Adding and removing.
// ---------------------------------------------------------------------------

/// A rule is refused exactly if its type is unknown or its value describes nothing
/// of that type, and the refusal says which: an unknown type, a missing part, or
/// text that is no address where one is needed.
pub proof fn lemma_refusals(kind: Seq<char>, v: Seq<char>)
    ensures
        kind_of(kind) is None <==> refusal(kind, v) == Some(RefusalView::UnknownKind),
        kind_of(kind) matches Some((effect, scope)) ==> {
            &&& refusal(kind, v) is None <==> pattern_of(scope, v) is Ok
            &&& refusal(kind, v) == Some(RefusalView::Incomplete) <==> pattern_of(scope, v) == Err::<
                PatternView,
                Flaw,
            >(Flaw::Incomplete)
            &&& pattern_of(scope, v) matches Err(Flaw::BadAddress(a)) ==> refusal(kind, v) == Some(
                if scope == Scope::Dest && effect == Effect::Deny {
                    RefusalView::NotAnAddress(v, "deny-host"@)
                } else if scope == Scope::Dest {
                    RefusalView::NotAnAddress(v, "allow-host"@)
                } else {
                    RefusalView::NotAnAddress(a, "the -host-from form"@)
                },
            )
        },
{
}

/// What a value describes: anything is a binary or a name; an address rule needs an
/// address in front of its port; and a scoped rule needs a destination and a
/// binary, the destination being what stands in front of the first white space.
pub proof fn lemma_what_values_describe(v: Seq<char>)
    ensures
        pattern_of(Scope::App, v) == Ok::<PatternView, Flaw>(PatternView::App(v)),
        pattern_of(Scope::Host, v) == Ok::<PatternView, Flaw>(
            PatternView::Host(lowercase(target_of(v).0), target_of(v).1),
        ),
        crate::addr::ip_of(target_of(v).0) matches Some(a) ==> pattern_of(Scope::Dest, v) == Ok::<
            PatternView,
            Flaw,
        >(PatternView::Dest(a, target_of(v).1)),
        crate::addr::ip_of(target_of(v).0) is None ==> pattern_of(Scope::Dest, v) is Err,
        scoped_of(v) is None ==> pattern_of(Scope::HostFrom, v) is Err && pattern_of(
            Scope::DestFrom,
            v,
        ) is Err,
        scoped_of(v) matches Some((d, e)) ==> {
            &&& pattern_of(Scope::HostFrom, v) == Ok::<PatternView, Flaw>(
                PatternView::HostFrom(e, lowercase(target_of(d).0), target_of(d).1),
            )
            &&& crate::addr::ip_of(target_of(d).0) matches Some(a) ==> pattern_of(
                Scope::DestFrom,
                v,
            ) == Ok::<PatternView, Flaw>(PatternView::DestFrom(e, a, target_of(d).1))
            &&& crate::addr::ip_of(target_of(d).0) is None ==> pattern_of(Scope::DestFrom, v) is Err
        },
{
}

/// Is this a pattern that a rule type with nothing behind it would describe?
pub open spec fn is_about_nothing(x: PatternView) -> bool {
    match x {
        PatternView::App(e) => e.len() == 0,
        PatternView::Host(h, port) => h.len() == 0 && port is None,
        _ => false,
    }
}

/// A rule that was removed is no longer in force, in whatever spelling the file held
/// it; and the rules of the other effect stay.
pub proof fn lemma_removed_rules_are_not_in_force(
    text: Seq<char>,
    kind: Seq<char>,
    v: Seq<char>,
    x: PatternView,
)
    requires
        kind_of(kind) matches Some((_, scope)) && pattern_of(scope, v) == Ok::<PatternView, Flaw>(x),
        !is_about_nothing(x),
    ensures
        ({
            let (effect, _) = kind_of(kind)->0;
            let before = loaded(text);
            let after = loaded(rewritten(text, rule_lines(kind, normal(kind, v))));
            &&& effect == Effect::Allow ==> !after.allow.contains(x) && after.deny == before.deny
            &&& effect == Effect::Deny ==> !after.deny.contains(x) && after.allow == before.allow
            &&& after.allow.subset_of(before.allow)
            &&& after.deny.subset_of(before.deny)
        }),
{
    let (effect, scope) = kind_of(kind)->0;
    let drop = rule_lines(kind, normal(kind, v));
    let ls = lines(text);
    let left = without(ls, drop);
    lemma_rewritten_lines(text, drop);
    lemma_lines_by_parts(ls);
    lemma_lines_by_parts(left);
    let gone = DirectiveView::Rule(effect, x);
    if says(left, gone) {
        let i = choose|i: int| 0 <= i < left.len() && directive(#[trigger] left[i]) == gone;
        let l = left[i];
        lemma_kept_exactly(ls, drop, l);
        assert(left.contains(l));
        let body = body_of(l);
        let k = key_of(body);
        let w = value_of(body);
        lemma_one_word_per_kind(k, kind);
        if w.len() == 0 {
            lemma_empty_values(scope, w, x);
        }
        lemma_same_pattern_same_form(kind, w, v);
        assert(holds_rule(l, kind, normal(kind, v)));
        assert(drop(l));
    }
    assert forall|e: Effect, y: PatternView| #[trigger]
        says(left, DirectiveView::Rule(e, y)) implies says(ls, DirectiveView::Rule(e, y)) by {
        let d = DirectiveView::Rule(e, y);
        let i = choose|i: int| 0 <= i < left.len() && directive(#[trigger] left[i]) == d;
        lemma_kept_exactly(ls, drop, left[i]);
        assert(left.contains(left[i]));
        let j = choose|j: int| 0 <= j < ls.len() && ls[j] == left[i];
        assert(directive(ls[j]) == d);
    }
    assert forall|e: Effect, y: PatternView| e != effect && #[trigger]
        says(ls, DirectiveView::Rule(e, y)) implies says(left, DirectiveView::Rule(e, y)) by {
        let d = DirectiveView::Rule(e, y);
        let i = choose|i: int| 0 <= i < ls.len() && directive(#[trigger] ls[i]) == d;
        assert(!holds_rule(ls[i], kind, normal(kind, v)));
        assert(!drop(ls[i]));
        assert(ls.contains(ls[i]));
        lemma_kept_exactly(ls, drop, ls[i]);
        let j = choose|j: int| 0 <= j < left.len() && left[j] == ls[i];
        assert(directive(left[j]) == d);
    }
    let before = loaded(text);
    let after = loaded(rewritten(text, drop));
    assert forall|y: PatternView| #[trigger] after.allow.contains(y) implies before.allow.contains(
        y,
    ) by {
        assert(says(left, DirectiveView::Rule(Effect::Allow, y)));
    }
    assert forall|y: PatternView| #[trigger] after.deny.contains(y) implies before.deny.contains(
        y,
    ) by {
        assert(says(left, DirectiveView::Rule(Effect::Deny, y)));
    }
    if effect == Effect::Allow {
        assert forall|y: PatternView| #[trigger] before.deny.contains(
            y,
        ) implies after.deny.contains(y) by {
            assert(says(ls, DirectiveView::Rule(Effect::Deny, y)));
        }
        assert(after.deny =~= before.deny);
    } else {
        assert forall|y: PatternView| #[trigger] before.allow.contains(
            y,
        ) implies after.allow.contains(y) by {
            assert(says(ls, DirectiveView::Rule(Effect::Allow, y)));
        }
        assert(after.allow =~= before.allow);
    }
}

proof fn lemma_one_word_per_kind(a: Seq<char>, b: Seq<char>)
    requires
        kind_of(a) is Some,
    ensures
        kind_of(a) == kind_of(b) ==> a == b,
{
}

proof fn lemma_empty_values(scope: Scope, w: Seq<char>, x: PatternView)
    requires
        w.len() == 0,
        pattern_of(scope, w) == Ok::<PatternView, Flaw>(x),
    ensures
        is_about_nothing(x),
{
    assert(w =~= Seq::<char>::empty());
    assert(trim(w) =~= w);
    lemma_find(w, just(':'));
    lemma_find(w, white());
    assert(lowercase(w) =~= w) by {
        assert(vstd::utf8::is_ascii_chars(w));
    }
    crate::addr::lemma_one_colon_is_not_v6(w, w);
    assert(target_of(w).0 =~= w);
    assert(target_of(w).1 is None);
    assert(crate::addr::ip_of(w) is None) by {
        if crate::addr::ip_of(w) is Some {
            crate::addr::lemma_ip_chars(w);
        }
    }
}

/// Removing a rule leaves every line of another type alone, and every setting.
pub proof fn lemma_removing_is_selective(
    text: Seq<char>,
    kind: Seq<char>,
    norm: Seq<char>,
    l: Seq<char>,
)
    requires
        lines(text).contains(l),
        body_of(l).len() == 0 || key_of(body_of(l)) != kind || value_of(body_of(l)).len() == 0
            || normal(kind, value_of(body_of(l))) != norm,
    ensures
        lines(rewritten(text, rule_lines(kind, norm))).contains(l),
{
    lemma_rewritten_lines(text, rule_lines(kind, norm));
    lemma_kept_exactly(lines(text), rule_lines(kind, norm), l);
}

/// Values are compared by their canonical forms: a binary by its path, a name in
/// lower case, an address as it is printed, each with its port, and a scoped value
/// with one space between its parts.
pub proof fn lemma_canonical_forms(v: Seq<char>, kind: Seq<char>)
    ensures
        ({
            let (h, port) = target_of(v);
            &&& kind_of(kind) matches Some((_, Scope::App)) ==> normal(kind, v) == v
            &&& kind_of(kind) matches Some((_, Scope::Host)) ==> normal(kind, v) == target_text(
                lowercase(h),
                port,
            )
            &&& kind_of(kind) matches Some((_, Scope::Dest)) ==> (crate::addr::ip_of(h) matches
                Some(a) ==> normal(kind, v) == target_text(crate::addr::ip_text(a), port))
            &&& scoped_of(v) matches Some((d, e)) ==> {
                let (g, p) = target_of(d);
                &&& kind_of(kind) matches Some((_, Scope::HostFrom)) ==> normal(kind, v)
                    == target_text(lowercase(g), p) + seq![' '] + e
                &&& kind_of(kind) matches Some((_, Scope::DestFrom)) ==> (crate::addr::ip_of(g)
                    matches Some(a) ==> normal(kind, v) == target_text(
                    crate::addr::ip_text(a),
                    p,
                ) + seq![' '] + e)
            }
        }),
{
}

/// What is appended to a file is the line and its ending, behind the ending of the
/// last line where that has none.
pub proof fn lemma_additions(text: Seq<char>, line: Seq<char>)
    ensures
        text.len() == 0 || text.last() == '\n' ==> addition(text, line) == line + seq!['\n'],
        text.len() > 0 && text.last() != '\n' ==> addition(text, line) == seq!['\n'] + line + seq![
            '\n',
        ],
{
    assert(line.push('\n') =~= line + seq!['\n']);
    assert(seq!['\n'] + line.push('\n') =~= seq!['\n'] + line + seq!['\n']);
}

/// A setting is written as its name, a space and its value.
pub proof fn lemma_setting_lines(key: Seq<char>, value: Seq<char>, note: Seq<char>)
    ensures
        setting_line(key, value) == key + seq![' '] + value,
        entry_line(key, value, None) == key + seq![' '] + value,
        entry_line(key, value, Some(note)) == key + seq![' '] + value + seq!['\t', '#', ' '] + note,
{
}

/// A rule is in a file if a line of it holds it: the last one, or one before.
pub proof fn lemma_rules_are_found(
    ls: Seq<Seq<char>>,
    line: Seq<char>,
    kind: Seq<char>,
    norm: Seq<char>,
)
    ensures
        !is_present(Seq::empty(), kind, norm),
        is_present(ls.push(line), kind, norm) <==> is_present(ls, kind, norm) || holds_rule(
            line,
            kind,
            norm,
        ),
{
    let all = ls.push(line);
    if is_present(ls, kind, norm) {
        let i = choose|i: int| 0 <= i < ls.len() && holds_rule(#[trigger] ls[i], kind, norm);
        assert(holds_rule(all[i], kind, norm));
    }
    if holds_rule(line, kind, norm) {
        assert(holds_rule(all[ls.len() as int], kind, norm));
    }
    if is_present(all, kind, norm) {
        let i = choose|i: int| 0 <= i < all.len() && holds_rule(#[trigger] all[i], kind, norm);
        if i < ls.len() {
            assert(holds_rule(ls[i], kind, norm));
        }
    }
}

/// Of the lines that are picked out the first is replaced and the others go; the rest
/// stay, in order.
pub proof fn lemma_lines_are_replaced(
    a: Seq<Seq<char>>,
    line: Seq<char>,
    b: Seq<Seq<char>>,
    pick: spec_fn(Seq<char>) -> bool,
    new: Seq<char>,
)
    requires
        pick(line),
        forall|i: int| 0 <= i < a.len() ==> !pick(#[trigger] a[i]),
    ensures
        any_picked(a.push(line) + b, pick),
        !any_picked(a, pick),
        replaced(a, pick, new) == a,
        replaced(a.push(line) + b, pick, new) == a.push(new) + b.filter(
            |l: Seq<char>| !pick(l),
        ),
    decreases a.len() + b.len(),
{
    let keep = |l: Seq<char>| !pick(l);
    if b.len() == 0 {
        reveal(Seq::filter);
        let all = a.push(line);
        assert(all + b =~= all);
        assert(all.drop_last() =~= a);
        lemma_nothing_is_replaced(a, pick, new);
        assert(b.filter(keep) =~= Seq::empty());
        assert(a.push(new) + b.filter(keep) =~= a.push(new));
    } else {
        let c = b.drop_last();
        lemma_lines_are_replaced(a, line, c, pick, new);
        let all = a.push(line) + b;
        assert(all.drop_last() =~= a.push(line) + c);
        assert(all.last() == b.last());
        reveal(Seq::filter);
        assert(b.filter(keep) == if keep(b.last()) {
            c.filter(keep).push(b.last())
        } else {
            c.filter(keep)
        });
        assert(a.push(new) + c.filter(keep).push(b.last()) =~= (a.push(new) + c.filter(keep)).push(
            b.last(),
        ));
    }
}

proof fn lemma_nothing_is_replaced(
    a: Seq<Seq<char>>,
    pick: spec_fn(Seq<char>) -> bool,
    new: Seq<char>,
)
    requires
        forall|i: int| 0 <= i < a.len() ==> !pick(#[trigger] a[i]),
    ensures
        !any_picked(a, pick),
        replaced(a, pick, new) == a,
    decreases a.len(),
{
    if a.len() > 0 {
        let h = a.drop_last();
        assert forall|i: int| 0 <= i < h.len() implies !pick(#[trigger] h[i]) by {
            assert(h[i] == a[i]);
        }
        lemma_nothing_is_replaced(h, pick, new);
        assert(!pick(a[a.len() - 1]));
        assert(h.push(a.last()) =~= a);
    } else {
        assert(replaced(a, pick, new) =~= a);
    }
}

proof fn lemma_word_and_rest(k: Seq<char>, w: Seq<char>, v: Seq<char>)
    requires
        forall|i: int| 0 <= i < k.len() ==> !is_white(#[trigger] k[i]),
        forall|i: int| 0 <= i < w.len() ==> is_white(#[trigger] w[i]),
        w.len() > 0,
        v.len() > 0,
        is_trimmed(v),
    ensures
        ({
            let all = k + w + v;
            let n = k.len() as int;
            &&& crate::text::find(all, white()) == n
            &&& all.take(n) == k
            &&& trim(all.skip(n + 1)) == v
        }),
{
    let all = k + w + v;
    let n = k.len() as int;
    assert forall|j: int| 0 <= j < n implies !white()(#[trigger] all[j]) by {
        assert(all[j] == k[j]);
    }
    assert(all[n] == w[0]);
    assert(white()(all[n]));
    lemma_find_is(all, white(), n);
    assert(all.take(n) =~= k);
    let u = w.skip(1);
    let none = Seq::<char>::empty();
    assert(all.skip(n + 1) =~= u + v + none);
    assert forall|i: int| 0 <= i < u.len() implies is_white(#[trigger] u[i]) by {
        assert(u[i] == w[i + 1]);
    }
    lemma_trim_around(u, v, none);
}

proof fn lemma_word_alone(k: Seq<char>)
    requires
        forall|i: int| 0 <= i < k.len() ==> !is_white(#[trigger] k[i]),
    ensures
        crate::text::find(k, white()) == k.len(),
        k.take(k.len() as int) == k,
{
    lemma_find(k, white());
    assert(k.take(k.len() as int) =~= k);
}

/// The key of a line is its first word and its value all that follows; a word alone
/// has no value.
pub proof fn lemma_keys_and_values(k: Seq<char>, w: Seq<char>, v: Seq<char>)
    requires
        forall|i: int| 0 <= i < k.len() ==> !is_white(#[trigger] k[i]),
        forall|i: int| 0 <= i < w.len() ==> is_white(#[trigger] w[i]),
        w.len() > 0,
        v.len() > 0,
        is_trimmed(v),
    ensures
        key_of(k + w + v) == k,
        value_of(k + w + v) == v,
        key_of(k) == k,
        value_of(k) == Seq::<char>::empty(),
{
    lemma_word_and_rest(k, w, v);
    lemma_word_alone(k);
}

/// A scoped value is a destination, which is a word, and a binary, which is all that
/// follows; a word alone is none.
pub proof fn lemma_scoped_values(d: Seq<char>, w: Seq<char>, e: Seq<char>)
    requires
        d.len() > 0,
        forall|i: int| 0 <= i < d.len() ==> !is_white(#[trigger] d[i]),
        forall|i: int| 0 <= i < w.len() ==> is_white(#[trigger] w[i]),
        w.len() > 0,
        e.len() > 0,
        is_trimmed(e),
    ensures
        scoped_of(d + w + e) == Some((d, e)),
        scoped_of(d) is None,
        scoped_of(Seq::empty()) is None,
{
    lemma_word_and_rest(d, w, e);
    lemma_word_alone(d);
    lemma_word_alone(Seq::empty());
}

} // verus!
