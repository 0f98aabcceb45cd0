//! What holds of every change to a policy file.
use crate::addr::{ip_of, ip_text};
use crate::line::{
    body_of, is_value, is_word, key_of, lemma_cr_says_nothing, lemma_entry_back, lemma_scoped_back,
    lemma_word_is_value, scoped_of, value_of, Entry,
};
use crate::pattern::{pattern_of, PatternView};
use crate::platform::{ascii_lower_char, lemma_ascii_lowercase_again, lowercase};
use crate::policy::{
    after_lines, applied, directive, directive_of, loaded, with_rule, DirectiveView, PolicyView,
};
use crate::policy_laws::{
    binary_in, lemma_entry_is_line, lemma_ip_is_spellable, lemma_kind_lengths, lemma_load_append,
    lemma_plain_is_word, lemma_target_is_word,
};
use crate::rulefile::{
    any_picked, app_lines, belongs, grant_lines, holds_rule, in_pieces, is_present,
    lemma_without_len, lemma_without_pieces, normal, normal_host, refusal, replaced, rewritten,
    rule_line, rule_lines, rule_of, rules_in, sets, setters, setting_line, with_setting, without,
};
use crate::target::{is_spellable, lemma_target_round_trip, target_of, target_text};
use crate::text::{
    appended, closed, find, holds, is_closed, is_cut, is_line, is_piece, is_trimmed, just,
    lemma_closed_lines, lemma_find, lemma_pieces, lemma_pieces_append, lemma_pieces_joined,
    lemma_trim_is_trimmed, lemma_trim_part, line_in, lines, lines_in, pieces, strip_cr, trim, white,
};
use crate::words::{
    attribution_of, is_plain, kind_of, kind_text, lemma_attribution_back, lemma_kind_back,
    lemma_mode_back, mode_of, AttributionMode, Mode, Scope,
};
use vstd::prelude::*;
use vstd::utf8::is_ascii_chars;

verus! {

// ---------------------------------------------------------------------------
// Canonical values.
// ---------------------------------------------------------------------------

/// Two values that describe the same pattern have the same canonical form,
/// however they are spelled: the case of a name, the spelling of an address and
/// the white space between the parts do not matter.
pub proof fn lemma_same_pattern_same_form(kind: Seq<char>, v: Seq<char>, w: Seq<char>)
    requires
        kind_of(kind) matches Some((_, scope)) ==> pattern_of(scope, v) is Ok && pattern_of(
            scope,
            v,
        ) == pattern_of(scope, w),
        kind_of(kind) is Some,
    ensures
        normal(kind, v) == normal(kind, w),
{
}

/// A name that a rule can spell in lower case, and whose lower case is settled.
pub open spec fn settles(h: Seq<char>) -> bool {
    is_spellable(lowercase(h)) && lowercase(lowercase(h)) == lowercase(h)
}

/// An ASCII name settles, if it has no white space around it, no bracket in front
/// and no colon in it.
pub proof fn lemma_ascii_name_settles(h: Seq<char>)
    requires
        is_ascii_chars(h),
        is_trimmed(h),
        h.len() > 0 ==> h[0] != '[',
        !holds(h, just(':')),
    ensures
        settles(h),
{
    lemma_ascii_lowercase_again(h);
    let low = lowercase(h);
    assert forall|i: int| 0 <= i < low.len() implies !just(':')(#[trigger] low[i]) by {
        assert(!just(':')(h[i]));
    }
    if h.len() > 0 {
        assert(low[0] == ascii_lower_char(h[0]));
        assert(low[low.len() - 1] == ascii_lower_char(h[h.len() - 1]));
    }
}

/// A value that survives being written in canonical form: it fits on a line, and
/// its name, if it has one, settles.
pub open spec fn is_clean(kind: Seq<char>, v: Seq<char>) -> bool {
    &&& refusal(kind, v) is None
    &&& is_value(normal(kind, v))
    &&& kind_of(kind) matches Some((_, Scope::Host)) ==> settles(target_of(v).0)
    &&& kind_of(kind) matches Some((_, Scope::HostFrom)) ==> {
        let (d, e) = scoped_of(v)->0;
        settles(target_of(d).0) && is_word(normal_host(d))
    }
}

proof fn lemma_tail_is_value(d: Seq<char>, e: Seq<char>, v: Seq<char>)
    requires
        scoped_of(v) == Some((d, e)),
        is_value(d + seq![' '] + e) || exists|t: Seq<char>| #[trigger] is_value(t + seq![' '] + e),
    ensures
        is_value(e),
{
    let i = find(v, white());
    lemma_trim_is_trimmed(v.skip(i + 1));
    let t = if is_value(d + seq![' '] + e) {
        d
    } else {
        choose|t: Seq<char>| #[trigger] is_value(t + seq![' '] + e)
    };
    let s = t + seq![' '] + e;
    assert forall|k: int| 0 <= k < e.len() implies !just('#')(#[trigger] e[k]) && !just('\n')(
        e[k],
    ) by {
        assert(s[t.len() as int + 1 + k] == e[k]);
        assert(!just('#')(s[t.len() as int + 1 + k]));
        assert(!just('\n')(s[t.len() as int + 1 + k]));
    }
}

/// The canonical form of a value means what the value means, and is its own
/// canonical form.
pub proof fn lemma_normal_means_same(kind: Seq<char>, v: Seq<char>)
    requires
        is_clean(kind, v),
    ensures
        kind_of(kind) matches Some((_, scope)) && pattern_of(scope, normal(kind, v)) == pattern_of(
            scope,
            v,
        ),
        normal(kind, normal(kind, v)) == normal(kind, v),
{
    let n = normal(kind, v);
    let (effect, scope) = kind_of(kind)->0;
    match scope {
        Scope::App => {},
        Scope::Host => {
            let (h, port) = target_of(v);
            lemma_target_round_trip(lowercase(h), port);
        },
        Scope::Dest => {
            let (h, port) = target_of(v);
            let a = ip_of(h)->0;
            lemma_ip_is_spellable(a);
            lemma_target_round_trip(ip_text(a), port);
        },
        Scope::HostFrom => {
            let (d, e) = scoped_of(v)->0;
            let (h, port) = target_of(d);
            lemma_target_round_trip(lowercase(h), port);
            assert(is_value(normal_host(d) + seq![' '] + e));
            lemma_tail_is_value(d, e, v);
            lemma_scoped_back(normal_host(d), ' ', e);
        },
        Scope::DestFrom => {
            let (d, e) = scoped_of(v)->0;
            let (h, port) = target_of(d);
            let a = ip_of(h)->0;
            lemma_ip_is_spellable(a);
            lemma_target_round_trip(ip_text(a), port);
            lemma_target_is_word(ip_text(a), port);
            assert(is_value(target_text(ip_text(a), port) + seq![' '] + e));
            lemma_tail_is_value(d, e, v);
            lemma_scoped_back(target_text(ip_text(a), port), ' ', e);
        },
    }
}

/// A name as it is usually written: ASCII, without white space, `#`, colon or
/// opening bracket.
pub open spec fn is_name(h: Seq<char>) -> bool {
    &&& is_ascii_chars(h)
    &&& is_word(h)
    &&& !holds(h, just(':'))
    &&& !holds(h, just('['))
}

proof fn lemma_name_in_lower_case(h: Seq<char>)
    requires
        is_name(h),
    ensures
        settles(h),
        is_word(lowercase(h)),
{
    assert(!white()(h[0]) && !white()(h[h.len() - 1]) && !just('[')(h[0]));
    lemma_ascii_name_settles(h);
    let low = lowercase(h);
    assert forall|i: int| 0 <= i < low.len() implies !white()(#[trigger] low[i]) && !just('#')(
        low[i],
    ) by {
        assert(low[i] == ascii_lower_char(h[i]));
        assert(!white()(h[i]) && !just('#')(h[i]));
    }
}

proof fn lemma_scoped_tail_is_value(v: Seq<char>)
    requires
        is_value(v),
        scoped_of(v) is Some,
    ensures
        is_value((scoped_of(v)->0).1),
{
    let i = find(v, white());
    lemma_find(v, white());
    let rest = v.skip(i + 1);
    let (a, b) = lemma_trim_part(rest);
    let e = trim(rest);
    lemma_trim_is_trimmed(rest);
    assert forall|k: int| 0 <= k < e.len() implies !just('#')(#[trigger] e[k]) && !just('\n')(e[k]) by {
        assert(e[k] == rest[a + k]);
        assert(rest[a + k] == v[i + 1 + a + k]);
        assert(!just('#')(v[i + 1 + a + k]) && !just('\n')(v[i + 1 + a + k]));
    }
}

/// The values that people write are clean: a path, an address, a name, each with
/// or without a port, and a destination followed by a path; trimmed, and without
/// `#` or a line feed.
pub proof fn lemma_usual_values_are_clean(kind: Seq<char>, v: Seq<char>)
    requires
        refusal(kind, v) is None,
        is_value(v),
        kind_of(kind) matches Some((_, Scope::Host)) ==> is_name(target_of(v).0),
        kind_of(kind) matches Some((_, Scope::HostFrom)) ==> is_name(
            target_of((scoped_of(v)->0).0).0,
        ),
    ensures
        is_clean(kind, v),
{
    let (effect, scope) = kind_of(kind)->0;
    match scope {
        Scope::App => {},
        Scope::Host => {
            let (h, port) = target_of(v);
            lemma_name_in_lower_case(h);
            lemma_target_is_word(lowercase(h), port);
            lemma_word_is_value(normal(kind, v));
        },
        Scope::Dest => {
            let (h, port) = target_of(v);
            let a = ip_of(h)->0;
            lemma_ip_is_spellable(a);
            lemma_target_is_word(ip_text(a), port);
            lemma_word_is_value(normal(kind, v));
        },
        Scope::HostFrom => {
            let (d, e) = scoped_of(v)->0;
            let (h, port) = target_of(d);
            lemma_name_in_lower_case(h);
            lemma_target_is_word(lowercase(h), port);
            lemma_scoped_tail_is_value(v);
            lemma_scoped_back(normal_host(d), ' ', e);
        },
        Scope::DestFrom => {
            let (d, e) = scoped_of(v)->0;
            let (h, port) = target_of(d);
            let a = ip_of(h)->0;
            lemma_ip_is_spellable(a);
            lemma_target_is_word(ip_text(a), port);
            lemma_scoped_tail_is_value(v);
            lemma_scoped_back(target_text(ip_text(a), port), ' ', e);
        },
    }
}

// ---------------------------------------------------------------------------
// Adding.
// ---------------------------------------------------------------------------

proof fn lemma_kind_is_word(kind: Seq<char>)
    requires
        kind_of(kind) is Some,
    ensures
        is_word(kind),
{
    let (effect, scope) = kind_of(kind)->0;
    lemma_kind_back(effect, scope);
    assert(kind == kind_text(effect, scope));
    lemma_plain_is_word(kind);
}

/// A note that can stand at the end of a line.
pub open spec fn is_note(note: Option<Seq<char>>) -> bool {
    note matches Some(n) ==> !holds(n, just('\n'))
}

/// Ending the last line of a file changes nothing about which rules it holds.
proof fn lemma_closed_holds_the_same(text: Seq<char>, kind: Seq<char>, norm: Seq<char>)
    ensures
        is_present(lines(closed(text)), kind, norm) == is_present(lines(text), kind, norm),
        rules_in(lines(closed(text))) == rules_in(lines(text)),
        lines(closed(text)).len() == lines(text).len(),
{
    lemma_closed_lines(text);
    if !is_closed(text) {
        let ls = lines(text);
        let n = ls.len() as int;
        let cs = lines(closed(text));
        lemma_cr_says_nothing(ls.last());
        assert(cs.drop_last() =~= ls.drop_last());
        assert forall|i: int| 0 <= i < n implies holds_rule(#[trigger] cs[i], kind, norm)
            == holds_rule(ls[i], kind, norm) by {
            if i < n - 1 {
                assert(cs[i] == ls.drop_last()[i]);
            }
        }
        if is_present(ls, kind, norm) {
            let i = choose|i: int| 0 <= i < n && holds_rule(#[trigger] ls[i], kind, norm);
            assert(holds_rule(cs[i], kind, norm));
        }
        if is_present(cs, kind, norm) {
            let i = choose|i: int| 0 <= i < n && holds_rule(#[trigger] cs[i], kind, norm);
            assert(holds_rule(ls[i], kind, norm));
        }
    }
}

/// What an added rule looks like in the file.
proof fn lemma_added_line(
    text: Seq<char>,
    kind: Seq<char>,
    v: Seq<char>,
    note: Option<Seq<char>>,
) -> (line: Seq<char>)
    requires
        is_clean(kind, v),
        is_note(note),
    ensures
        line == strip_cr(rule_line(kind, v, note)),
        lines(appended(text, rule_line(kind, v, note))) == lines(closed(text)).push(line),
        pieces(appended(text, rule_line(kind, v, note))) == pieces(closed(text)).push(
            rule_line(kind, v, note).push('\n'),
        ),
        line_in(rule_line(kind, v, note).push('\n')) == line,
        holds_rule(line, kind, normal(kind, v)),
        rule_of(line) matches Some(e) && e.key == kind && e.value == normal(kind, v) && (e.comment
            is None <==> note is None),
        directive(rule_line(kind, v, note)) == directive_of(kind, normal(kind, v)),
        !holds(rule_line(kind, v, note), just('\n')),
{
    let n = normal(kind, v);
    let raw = rule_line(kind, v, note);
    lemma_normal_means_same(kind, v);
    lemma_kind_is_word(kind);
    lemma_entry_back(kind, n, note);
    lemma_entry_is_line(kind, n, note);
    lemma_cr_says_nothing(raw);
    lemma_pieces_append(text, raw);
    assert(raw.push('\n').drop_last() =~= raw);
    strip_cr(raw)
}

/// A rule that was added is there, once: adding it again, in any spelling that
/// means the same, writes nothing.
pub proof fn lemma_add_twice(
    text: Seq<char>,
    kind: Seq<char>,
    v: Seq<char>,
    note: Option<Seq<char>>,
    w: Seq<char>,
)
    requires
        is_clean(kind, v),
        is_note(note),
        kind_of(kind) matches Some((_, scope)) && pattern_of(scope, w) == pattern_of(scope, v),
    ensures
        ({
            let after = lines(appended(text, rule_line(kind, v, note)));
            &&& refusal(kind, w) is None
            &&& is_present(after, kind, normal(kind, w))
            &&& !is_present(lines(text), kind, normal(kind, v)) ==> after.len() - without(
                after,
                rule_lines(kind, normal(kind, w)),
            ).len() == 1
        }),
{
    let n = normal(kind, v);
    let drop = rule_lines(kind, n);
    lemma_same_pattern_same_form(kind, v, w);
    let line = lemma_added_line(text, kind, v, note);
    let cs = lines(closed(text));
    let ls = cs.push(line);
    assert(holds_rule(ls[ls.len() - 1], kind, n));
    lemma_closed_holds_the_same(text, kind, n);
    if !is_present(lines(text), kind, n) {
        assert(ls.drop_last() =~= cs);
        assert forall|i: int| 0 <= i < cs.len() implies !drop(#[trigger] cs[i]) by {
            assert(!holds_rule(cs[i], kind, n));
        }
        lemma_keep_all(cs, drop);
        assert(drop(line));
    }
}

/// A rule that was added is listed, behind those that were listed before, also
/// where the last line of the file was not ended.
pub proof fn lemma_added_is_listed(
    text: Seq<char>,
    kind: Seq<char>,
    v: Seq<char>,
    note: Option<Seq<char>>,
)
    requires
        is_clean(kind, v),
        is_note(note),
    ensures
        ({
            let after = rules_in(lines(appended(text, rule_line(kind, v, note))));
            &&& after.len() == rules_in(lines(text)).len() + 1
            &&& after.drop_last() == rules_in(lines(text))
            &&& after.last().key == kind
            &&& after.last().value == normal(kind, v)
            &&& after.last().comment is None <==> note is None
        }),
{
    let line = lemma_added_line(text, kind, v, note);
    let cs = lines(closed(text));
    lemma_closed_holds_the_same(text, kind, normal(kind, v));
    assert(cs.push(line).drop_last() =~= cs);
    let after = rules_in(cs.push(line));
    assert(after.drop_last() =~= rules_in(cs));
}

/// A rule that was added is in force when the file is loaded, and nothing else
/// changes, also where the last line of the file was not ended.
pub proof fn lemma_add_then_load(
    text: Seq<char>,
    kind: Seq<char>,
    v: Seq<char>,
    note: Option<Seq<char>>,
)
    requires
        is_clean(kind, v),
        is_note(note),
    ensures
        ({
            let (effect, scope) = kind_of(kind)->0;
            loaded(appended(text, rule_line(kind, v, note))) == with_rule(
                loaded(text),
                effect,
                pattern_of(scope, v)->Ok_0,
            )
        }),
{
    let line = lemma_added_line(text, kind, v, note);
    lemma_normal_means_same(kind, v);
    lemma_load_append(text, rule_line(kind, v, note));
}

// ---------------------------------------------------------------------------
// Removing.
// ---------------------------------------------------------------------------

/// What is left are the lines that were not picked out, each as it was.
pub proof fn lemma_kept_exactly(
    ls: Seq<Seq<char>>,
    drop: spec_fn(Seq<char>) -> bool,
    l: Seq<char>,
)
    ensures
        without(ls, drop).contains(l) <==> ls.contains(l) && !drop(l),
    decreases ls.len(),
{
    if ls.len() > 0 {
        let h = ls.drop_last();
        let w = without(h, drop);
        lemma_kept_exactly(h, drop, l);
        assert(ls.contains(l) <==> h.contains(l) || ls.last() == l) by {
            assert(h.push(ls.last()) =~= ls);
            if h.contains(l) {
                let i = choose|i: int| 0 <= i < h.len() && h[i] == l;
                assert(ls[i] == l);
            }
            if ls.last() == l {
                assert(ls[ls.len() - 1] == l);
            }
            if ls.contains(l) {
                let i = choose|i: int| 0 <= i < ls.len() && ls[i] == l;
                if i < h.len() {
                    assert(h[i] == l);
                }
            }
        }
        assert(w.push(ls.last()).contains(l) <==> w.contains(l) || ls.last() == l) by {
            let p = w.push(ls.last());
            if w.contains(l) {
                let i = choose|i: int| 0 <= i < w.len() && w[i] == l;
                assert(p[i] == l);
            }
            if ls.last() == l {
                assert(p[w.len() as int] == l);
            }
            if p.contains(l) {
                let i = choose|i: int| 0 <= i < p.len() && p[i] == l;
                if i < w.len() {
                    assert(w[i] == l);
                }
            }
        }
    }
}

proof fn lemma_without_is_cut(ps: Seq<Seq<char>>, drop: spec_fn(Seq<char>) -> bool)
    requires
        is_cut(ps),
    ensures
        is_cut(without(ps, drop)),
        (ps.len() > 0 ==> ps.last().last() == '\n') ==> (without(ps, drop).len() > 0 ==> without(
            ps,
            drop,
        ).last().last() == '\n'),
    decreases ps.len(),
{
    if ps.len() > 0 {
        let h = ps.drop_last();
        assert forall|i: int| 0 <= i < h.len() implies is_piece(#[trigger] h[i]) && h[i].last()
            == '\n' by {
            assert(h[i] == ps[i]);
        }
        assert(h.len() > 0 ==> h.last() == h[h.len() - 1]);
        lemma_without_is_cut(h, drop);
        assert(is_piece(ps[ps.len() - 1]));
        let w = without(h, drop);
        let r = w.push(ps.last());
        assert forall|i: int| 0 <= i < r.len() implies is_piece(#[trigger] r[i]) && (i < r.len() - 1
            ==> r[i].last() == '\n') by {
            if i < w.len() {
                assert(r[i] == w[i]);
                assert(is_piece(w[i]));
                if i == w.len() - 1 {
                    assert(w.last() == w[i]);
                }
            }
        }
    }
}

/// Rewriting a file drops the pieces whose lines are picked out, and touches no
/// other byte: reading it gives exactly the lines that were kept.
pub proof fn lemma_rewritten_lines(text: Seq<char>, drop: spec_fn(Seq<char>) -> bool)
    ensures
        pieces(rewritten(text, drop)) == without(pieces(text), in_pieces(drop)),
        lines(rewritten(text, drop)) == without(lines(text), drop),
{
    lemma_pieces(text);
    lemma_without_is_cut(pieces(text), in_pieces(drop));
    lemma_pieces_joined(without(pieces(text), in_pieces(drop)));
    lemma_without_pieces(pieces(text), drop);
}

/// Where nothing is picked out a file stays as it is.
pub proof fn lemma_nothing_to_drop(text: Seq<char>, drop: spec_fn(Seq<char>) -> bool)
    requires
        forall|i: int| 0 <= i < lines(text).len() ==> !drop(#[trigger] lines(text)[i]),
    ensures
        rewritten(text, drop) == text,
        without(lines(text), drop) == lines(text),
{
    let ps = pieces(text);
    let pick = in_pieces(drop);
    lemma_pieces(text);
    assert forall|i: int| 0 <= i < ps.len() implies !pick(#[trigger] ps[i]) by {
        assert(lines(text)[i] == lines_in(ps)[i]);
        assert(!drop(lines(text)[i]));
    }
    lemma_keep_all(ps, pick);
    lemma_keep_all(lines(text), drop);
}

/// A rule that was removed is gone, in every spelling, and every other line is
/// still there.
pub proof fn lemma_removed_is_gone(text: Seq<char>, kind: Seq<char>, norm: Seq<char>)
    ensures
        ({
            let after = lines(rewritten(text, rule_lines(kind, norm)));
            &&& !is_present(after, kind, norm)
            &&& forall|l: Seq<char>|
                lines(text).contains(l) && !holds_rule(l, kind, norm) ==> #[trigger] after.contains(
                    l,
                )
        }),
{
    let drop = rule_lines(kind, norm);
    lemma_rewritten_lines(text, drop);
    let after = without(lines(text), drop);
    assert forall|i: int| 0 <= i < after.len() implies !holds_rule(#[trigger] after[i], kind, norm) by {
        lemma_kept_exactly(lines(text), drop, after[i]);
        assert(after.contains(after[i]));
    }
    assert forall|l: Seq<char>| lines(text).contains(l) && !holds_rule(
        l,
        kind,
        norm,
    ) implies #[trigger] after.contains(l) by {
        lemma_kept_exactly(lines(text), drop, l);
    }
}

/// A line that is dropped makes a file shorter.
proof fn lemma_dropped_is_missing(
    ls: Seq<Seq<char>>,
    drop: spec_fn(Seq<char>) -> bool,
    j: int,
)
    requires
        0 <= j < ls.len(),
        drop(ls[j]),
    ensures
        without(ls, drop).len() < ls.len(),
    decreases ls.len(),
{
    lemma_without_len(ls.drop_last(), drop);
    if j < ls.len() - 1 {
        assert(ls.drop_last()[j] == ls[j]);
        lemma_dropped_is_missing(ls.drop_last(), drop, j);
    }
}

/// A listed rule stands on some line.
proof fn lemma_listed_stands(ls: Seq<Seq<char>>, i: int) -> (j: int)
    requires
        0 <= i < rules_in(ls).len(),
    ensures
        0 <= j < ls.len(),
        rule_of(ls[j]) == Some(rules_in(ls)[i]),
    decreases ls.len(),
{
    let before = rules_in(ls.drop_last());
    if i < before.len() {
        let j = lemma_listed_stands(ls.drop_last(), i);
        assert(ls.drop_last()[j] == ls[j]);
        assert(rules_in(ls)[i] == before[i]);
        j
    } else {
        ls.len() - 1
    }
}

/// A rule can be removed as it is listed: its type and value, handed back, take at
/// least one line away.
pub proof fn lemma_listed_can_be_removed(text: Seq<char>, i: int)
    requires
        0 <= i < rules_in(lines(text)).len(),
    ensures
        ({
            let e = rules_in(lines(text))[i];
            without(lines(text), rule_lines(e.key, normal(e.key, e.value))).len() < lines(text).len()
        }),
{
    let e = rules_in(lines(text))[i];
    let j = lemma_listed_stands(lines(text), i);
    assert(holds_rule(lines(text)[j], e.key, normal(e.key, e.value)));
    lemma_dropped_is_missing(lines(text), rule_lines(e.key, normal(e.key, e.value)), j);
}

/// Removing a rule just after it was added takes one line away and gives the file
/// back to the byte, except that its last line is ended now. Removing it once more
/// takes nothing away and changes nothing.
pub proof fn lemma_add_then_remove(
    text: Seq<char>,
    kind: Seq<char>,
    v: Seq<char>,
    note: Option<Seq<char>>,
)
    requires
        is_clean(kind, v),
        is_note(note),
        !is_present(lines(text), kind, normal(kind, v)),
    ensures
        ({
            let grown = appended(text, rule_line(kind, v, note));
            let drop = rule_lines(kind, normal(kind, v));
            &&& rewritten(grown, drop) == closed(text)
            &&& is_closed(text) ==> rewritten(grown, drop) == text
            &&& lines(grown).len() - without(lines(grown), drop).len() == 1
            &&& rewritten(closed(text), drop) == closed(text)
            &&& without(lines(closed(text)), drop).len() == lines(closed(text)).len()
        }),
{
    let n = normal(kind, v);
    let drop = rule_lines(kind, n);
    let grown = appended(text, rule_line(kind, v, note));
    let base = closed(text);
    let line = lemma_added_line(text, kind, v, note);
    lemma_closed_lines(text);
    lemma_closed_holds_the_same(text, kind, n);
    assert forall|i: int| 0 <= i < lines(base).len() implies !drop(#[trigger] lines(base)[i]) by {
        assert(!holds_rule(lines(base)[i], kind, n));
    }
    lemma_nothing_to_drop(base, drop);
    let p = rule_line(kind, v, note).push('\n');
    assert(pieces(base).push(p).drop_last() =~= pieces(base));
    assert(in_pieces(drop)(p));
    assert(lines(base).push(line).drop_last() =~= lines(base));
    assert(drop(line));
}

proof fn lemma_keep_all(ls: Seq<Seq<char>>, drop: spec_fn(Seq<char>) -> bool)
    requires
        forall|i: int| 0 <= i < ls.len() ==> !drop(#[trigger] ls[i]),
    ensures
        without(ls, drop) == ls,
    decreases ls.len(),
{
    if ls.len() > 0 {
        let h = ls.drop_last();
        assert forall|i: int| 0 <= i < h.len() implies !drop(#[trigger] h[i]) by {
            assert(h[i] == ls[i]);
        }
        lemma_keep_all(h, drop);
        assert(!drop(ls[ls.len() - 1]));
        assert(h.push(ls.last()) =~= ls);
    } else {
        assert(without(ls, drop) =~= ls);
    }
}

/// The settings of a policy, which are not rules.
pub open spec fn same_settings(p: PolicyView, q: PolicyView) -> bool {
    p.default == q.default && p.prompt == q.prompt && p.mode == q.mode && p.attribution
        == q.attribution
}

/// A rule type with no value after it.
pub open spec fn is_bare_rule(raw: Seq<char>) -> bool {
    let body = body_of(raw);
    body.len() > 0 && kind_of(key_of(body)) is Some && value_of(body).len() == 0
}

proof fn lemma_clear_lines(ls: Seq<Seq<char>>)
    ensures
        ({
            let after = after_lines(without(ls, grant_lines()));
            &&& rules_in(without(ls, grant_lines())) == Seq::<Entry>::empty()
            &&& after.app_id == Map::<Seq<char>, Seq<char>>::empty()
            &&& same_settings(after, after_lines(ls))
        }),
    decreases ls.len(),
{
    if ls.len() > 0 {
        let h = ls.drop_last();
        let l = ls.last();
        lemma_clear_lines(h);
        let w = without(h, grant_lines());
        assert(w.push(l).drop_last() =~= w);
        lemma_app_id_is_no_rule();
    }
}

proof fn lemma_cleared_lines(ls: Seq<Seq<char>>)
    requires
        forall|i: int| 0 <= i < ls.len() ==> !is_bare_rule(#[trigger] ls[i]),
    ensures
        ({
            let after = after_lines(without(ls, grant_lines()));
            &&& after.allow == Set::<PatternView>::empty()
            &&& after.deny == Set::<PatternView>::empty()
        }),
    decreases ls.len(),
{
    if ls.len() > 0 {
        let h = ls.drop_last();
        let l = ls.last();
        assert forall|i: int| 0 <= i < h.len() implies !is_bare_rule(#[trigger] h[i]) by {
            assert(h[i] == ls[i]);
        }
        lemma_cleared_lines(h);
        assert(!is_bare_rule(ls[ls.len() - 1]));
        let w = without(h, grant_lines());
        assert(w.push(l).drop_last() =~= w);
        lemma_app_id_is_no_rule();
    }
}

proof fn lemma_app_id_is_no_rule()
    ensures
        kind_of("app-id"@) is None,
        "app-id"@ != "default"@,
        "app-id"@ != "prompt"@,
        "app-id"@ != "mode"@,
        "app-id"@ != "attribution"@,
{
    reveal_strlit("app-id");
    reveal_strlit("default");
    reveal_strlit("prompt");
    reveal_strlit("mode");
    reveal_strlit("attribution");
    lemma_kind_lengths();
    assert("app-id"@.len() == 6 && "default"@.len() == 7 && "mode"@.len() == 4
        && "attribution"@.len() == 11);
    assert("app-id"@[0] != "prompt"@[0]);
}

/// Clearing leaves no rule to list and no identity, and keeps every setting: the
/// default, the mode, the backend and the prompt.
pub proof fn lemma_clear_keeps_settings(text: Seq<char>)
    ensures
        ({
            let left = rewritten(text, grant_lines());
            &&& rules_in(lines(left)) == Seq::<Entry>::empty()
            &&& loaded(left).app_id == Map::<Seq<char>, Seq<char>>::empty()
            &&& same_settings(loaded(left), loaded(text))
        }),
{
    lemma_rewritten_lines(text, grant_lines());
    lemma_clear_lines(lines(text));
}

/// After clearing nothing is allowed and nothing is denied by a rule. A rule type
/// with nothing after it is left alone, as it is no rule; a file that holds one
/// still reads as a rule about nothing.
pub proof fn lemma_clear_leaves_no_rule(text: Seq<char>)
    requires
        forall|i: int| 0 <= i < lines(text).len() ==> !is_bare_rule(#[trigger] lines(text)[i]),
    ensures
        loaded(rewritten(text, grant_lines())).allow == Set::<PatternView>::empty(),
        loaded(rewritten(text, grant_lines())).deny == Set::<PatternView>::empty(),
{
    lemma_rewritten_lines(text, grant_lines());
    lemma_cleared_lines(lines(text));
}

/// The patterns that are not about one binary.
pub open spec fn not_about(s: Set<PatternView>, exe: Seq<char>) -> Set<PatternView> {
    Set::new(|p: PatternView| s.contains(p) && binary_in(p) != Some(exe))
}

proof fn lemma_remove_app_lines(ls: Seq<Seq<char>>, exe: Seq<char>)
    requires
        exe.len() > 0,
    ensures
        ({
            let before = after_lines(ls);
            let after = after_lines(without(ls, app_lines(exe)));
            &&& after.allow == not_about(before.allow, exe)
            &&& after.deny == not_about(before.deny, exe)
            &&& after.app_id == before.app_id.remove(exe)
            &&& same_settings(after, before)
        }),
    decreases ls.len(),
{
    if ls.len() > 0 {
        let h = ls.drop_last();
        let l = ls.last();
        lemma_remove_app_lines(h, exe);
        let w = without(h, app_lines(exe));
        assert(w.push(l).drop_last() =~= w);
        lemma_app_id_is_no_rule();
        let before = after_lines(ls);
        let after = after_lines(without(ls, app_lines(exe)));
        let d = directive(l);
        match d {
            DirectiveView::Rule(effect, p) => {
                assert(belongs(l, exe) <==> binary_in(p) == Some(exe));
                assert(after.allow =~= not_about(before.allow, exe));
                assert(after.deny =~= not_about(before.deny, exe));
            },
            DirectiveView::AppId(e, sha) => {
                assert(belongs(l, exe) <==> e == exe);
                assert(after.app_id =~= before.app_id.remove(exe));
            },
            _ => {},
        }
    } else {
        let before = after_lines(ls);
        assert(not_about(before.allow, exe) =~= before.allow);
        assert(not_about(before.deny, exe) =~= before.deny);
        assert(before.app_id.remove(exe) =~= before.app_id);
    }
}

/// Removing a binary takes away exactly its rules and its identity.
pub proof fn lemma_remove_app_is_exact(text: Seq<char>, exe: Seq<char>)
    requires
        exe.len() > 0,
    ensures
        ({
            let before = loaded(text);
            let after = loaded(rewritten(text, app_lines(exe)));
            &&& after.allow == not_about(before.allow, exe)
            &&& after.deny == not_about(before.deny, exe)
            &&& after.app_id == before.app_id.remove(exe)
            &&& same_settings(after, before)
        }),
{
    lemma_rewritten_lines(text, app_lines(exe));
    lemma_remove_app_lines(lines(text), exe);
}

// ---------------------------------------------------------------------------
// Settings.
// ---------------------------------------------------------------------------

proof fn lemma_setting_keys()
    ensures
        kind_of("mode"@) is None,
        kind_of("attribution"@) is None,
        is_plain("mode"@),
        is_plain("attribution"@),
        "mode"@ != "default"@,
        "mode"@ != "prompt"@,
        "mode"@ != "app-id"@,
        "mode"@ != "attribution"@,
        "attribution"@ != "default"@,
        "attribution"@ != "prompt"@,
        "attribution"@ != "app-id"@,
{
    reveal_strlit("app-id");
    reveal_strlit("default");
    reveal_strlit("prompt");
    reveal_strlit("mode");
    reveal_strlit("attribution");
    reveal_strlit("allow-app");
    reveal_strlit("deny-app");
    reveal_strlit("allow-host");
    reveal_strlit("deny-host");
    reveal_strlit("allow-dest");
    reveal_strlit("deny-dest");
    reveal_strlit("allow-host-from");
    reveal_strlit("allow-dest-from");
    reveal_strlit("deny-host-from");
    reveal_strlit("deny-dest-from");
    assert("mode"@.len() == 4 && "attribution"@.len() == 11);
    assert("app-id"@.len() == 6 && "default"@.len() == 7 && "prompt"@.len() == 6);
    assert("allow-app"@.len() == 9 && "deny-app"@.len() == 8 && "allow-host"@.len() == 10);
    assert("deny-host"@.len() == 9 && "allow-dest"@.len() == 10 && "deny-dest"@.len() == 9);
    assert("allow-host-from"@.len() == 15 && "allow-dest-from"@.len() == 15);
    assert("deny-host-from"@.len() == 14 && "deny-dest-from"@.len() == 14);
}

/// Two policies that differ in nothing but the mode.
pub open spec fn same_but_mode(p: PolicyView, q: PolicyView) -> bool {
    p == (PolicyView { mode: p.mode, ..q })
}

/// Two policies that differ in nothing but the attribution backend.
pub open spec fn same_but_attribution(p: PolicyView, q: PolicyView) -> bool {
    p == (PolicyView { attribution: p.attribution, ..q })
}

proof fn lemma_mode_line(l: Seq<char>)
    ensures
        sets(l, "mode"@) ==> directive(l) is Mode || directive(l) is Unclear,
        !sets(l, "mode"@) ==> !(directive(l) is Mode),
{
    lemma_setting_keys();
    lemma_mode_needs_a_value();
    let body = body_of(l);
    if body.len() > 0 && value_of(body).len() == 0 {
        assert(value_of(body) =~= Seq::<char>::empty());
    }
}

proof fn lemma_set_mode_lines(ls: Seq<Seq<char>>, m: Mode, line: Seq<char>)
    requires
        directive(line) == DirectiveView::Mode(m),
    ensures
        same_but_mode(after_lines(replaced(ls, setters("mode"@), line)), after_lines(ls)),
        after_lines(replaced(ls, setters("mode"@), line)).mode == (if any_picked(ls, setters("mode"@)) {
            Some(m)
        } else {
            None
        }),
    decreases ls.len(),
{
    if ls.len() > 0 {
        let h = ls.drop_last();
        let l = ls.last();
        lemma_set_mode_lines(h, m, line);
        let w = replaced(h, setters("mode"@), line);
        assert(w.push(l).drop_last() =~= w);
        assert(w.push(line).drop_last() =~= w);
        lemma_mode_line(l);
        let p = after_lines(w);
        let q = after_lines(h);
        if sets(l, "mode"@) {
            assert(same_but_mode(p, applied(q, directive(l))));
        }
    }
}

proof fn lemma_mode_needs_a_value()
    ensures
        mode_of(Seq::empty()) is None,
        attribution_of(Seq::empty()) is None,
{
    let none = Seq::<char>::empty();
    assert(trim(none) =~= none);
    assert(vstd::utf8::is_ascii_chars(none));
    assert(lowercase(none) =~= none);
    reveal_strlit("visibility");
    reveal_strlit("listen");
    reveal_strlit("observe");
    reveal_strlit("enforcement");
    reveal_strlit("enforce");
    reveal_strlit("kernel");
    reveal_strlit("procstat");
}

proof fn lemma_setting_line_means(key: Seq<char>, value: Seq<char>)
    requires
        is_plain(key),
        is_plain(value),
    ensures
        directive(setting_line(key, value)) == directive_of(key, value),
        is_line(setting_line(key, value)),
        sets(setting_line(key, value), key),
{
    lemma_plain_is_word(key);
    lemma_plain_is_word(value);
    lemma_word_is_value(value);
    lemma_entry_back(key, value, None);
    lemma_entry_is_line(key, value, None);
}

proof fn lemma_replaced_pieces(
    ps: Seq<Seq<char>>,
    pick: spec_fn(Seq<char>) -> bool,
    line: Seq<char>,
)
    requires
        is_cut(ps),
        is_line(line),
    ensures
        ({
            let r = replaced(ps, in_pieces(pick), line.push('\n'));
            &&& is_cut(r)
            &&& lines_in(r) == replaced(lines_in(ps), pick, line)
            &&& any_picked(ps, in_pieces(pick)) == any_picked(lines_in(ps), pick)
            &&& (ps.len() > 0 ==> ps.last().last() == '\n') ==> (r.len() > 0 ==> r.last().last()
                == '\n')
        }),
    decreases ps.len(),
{
    let new = line.push('\n');
    let r = replaced(ps, in_pieces(pick), new);
    if ps.len() > 0 {
        let h = ps.drop_last();
        assert forall|i: int| 0 <= i < h.len() implies is_piece(#[trigger] h[i]) && h[i].last()
            == '\n' by {
            assert(h[i] == ps[i]);
        }
        assert(h.len() > 0 ==> h.last() == h[h.len() - 1]);
        lemma_replaced_pieces(h, pick, line);
        assert(is_piece(ps[ps.len() - 1]));
        assert(lines_in(ps).drop_last() =~= lines_in(h));
        assert(lines_in(ps).last() == line_in(ps.last()));
        assert(new.drop_last() =~= line);
        assert(line_in(new) == line);
        let w = replaced(h, in_pieces(pick), new);
        assert(lines_in(w.push(ps.last())) =~= lines_in(w).push(line_in(ps.last())));
        assert(lines_in(w.push(new)) =~= lines_in(w).push(line));
        assert forall|i: int| 0 <= i < r.len() implies is_piece(#[trigger] r[i]) && (i < r.len() - 1
            ==> r[i].last() == '\n') by {
            if i < w.len() {
                assert(r[i] == w[i]);
                assert(is_piece(w[i]));
                if i == w.len() - 1 {
                    assert(w.last() == w[i]);
                }
            }
        }
    } else {
        assert(lines_in(r) =~= replaced(lines_in(ps), pick, line));
    }
}

proof fn lemma_setting_lines(text: Seq<char>, key: Seq<char>, line: Seq<char>)
    requires
        is_line(line),
    ensures
        ({
            let after = with_setting(text, key, line);
            let ls = lines(text);
            if any_picked(ls, setters(key)) {
                &&& lines(after) == replaced(ls, setters(key), line)
                &&& pieces(after) == replaced(
                    pieces(text),
                    in_pieces(setters(key)),
                    line.push('\n'),
                )
            } else {
                after == appended(text, line)
            }
        }),
{
    lemma_pieces(text);
    lemma_replaced_pieces(pieces(text), setters(key), line);
    lemma_pieces_joined(replaced(pieces(text), in_pieces(setters(key)), line.push('\n')));
}

/// After a switch of mode the file says that mode, and nothing else in it has
/// changed its meaning.
pub proof fn lemma_set_mode_then_load(text: Seq<char>, m: Mode)
    ensures
        ({
            let after = loaded(with_setting(text, "mode"@, setting_line("mode"@, m.name())));
            &&& after.mode == Some(m)
            &&& same_but_mode(after, loaded(text))
        }),
{
    let line = setting_line("mode"@, m.name());
    lemma_setting_keys();
    lemma_mode_back(m);
    lemma_setting_line_means("mode"@, m.name());
    lemma_setting_lines(text, "mode"@, line);
    lemma_set_mode_lines(lines(text), m, line);
    lemma_load_append(text, line);
}

proof fn lemma_attribution_line(l: Seq<char>)
    ensures
        sets(l, "attribution"@) ==> directive(l) is Attribution || directive(l) is Unclear,
        !sets(l, "attribution"@) ==> !(directive(l) is Attribution),
{
    lemma_setting_keys();
    lemma_mode_needs_a_value();
    let body = body_of(l);
    if body.len() > 0 && value_of(body).len() == 0 {
        assert(value_of(body) =~= Seq::<char>::empty());
    }
}

proof fn lemma_set_attribution_lines(ls: Seq<Seq<char>>, a: AttributionMode, line: Seq<char>)
    requires
        directive(line) == DirectiveView::Attribution(a),
    ensures
        same_but_attribution(after_lines(replaced(ls, setters("attribution"@), line)), after_lines(ls)),
        after_lines(replaced(ls, setters("attribution"@), line)).attribution == (if any_picked(
            ls,
            setters("attribution"@),
        ) {
            Some(a)
        } else {
            None
        }),
    decreases ls.len(),
{
    if ls.len() > 0 {
        let h = ls.drop_last();
        let l = ls.last();
        lemma_set_attribution_lines(h, a, line);
        let w = replaced(h, setters("attribution"@), line);
        assert(w.push(l).drop_last() =~= w);
        assert(w.push(line).drop_last() =~= w);
        lemma_attribution_line(l);
        let p = after_lines(w);
        let q = after_lines(h);
        if sets(l, "attribution"@) {
            assert(same_but_attribution(p, applied(q, directive(l))));
        }
    }
}

/// After a switch of backend the file says that backend, and nothing else in it
/// has changed its meaning.
pub proof fn lemma_set_attribution_then_load(text: Seq<char>, a: AttributionMode)
    ensures
        ({
            let after = loaded(
                with_setting(text, "attribution"@, setting_line("attribution"@, a.name())),
            );
            &&& after.attribution == Some(a)
            &&& same_but_attribution(after, loaded(text))
        }),
{
    let line = setting_line("attribution"@, a.name());
    lemma_setting_keys();
    lemma_attribution_back(a);
    lemma_setting_line_means("attribution"@, a.name());
    lemma_setting_lines(text, "attribution"@, line);
    lemma_set_attribution_lines(lines(text), a, line);
    lemma_load_append(text, line);
}

proof fn lemma_none_is_picked(ls: Seq<Seq<char>>, pick: spec_fn(Seq<char>) -> bool)
    requires
        !any_picked(ls, pick),
    ensures
        forall|i: int| 0 <= i < ls.len() ==> !pick(#[trigger] ls[i]),
        without(ls, pick) == ls,
        forall|new: Seq<char>| #[trigger] replaced(ls, pick, new) == ls,
    decreases ls.len(),
{
    if ls.len() > 0 {
        let h = ls.drop_last();
        lemma_none_is_picked(h, pick);
        assert forall|i: int| 0 <= i < ls.len() implies !pick(#[trigger] ls[i]) by {
            if i < h.len() {
                assert(h[i] == ls[i]);
            }
        }
        assert(h.push(ls.last()) =~= ls);
        assert forall|new: Seq<char>| #[trigger] replaced(ls, pick, new) == ls by {
            assert(replaced(h, pick, new) == h);
        }
    } else {
        assert(without(ls, pick) =~= ls);
        assert forall|new: Seq<char>| #[trigger] replaced(ls, pick, new) == ls by {
            assert(replaced(ls, pick, new) =~= ls);
        }
    }
}

/// Where the replacement stands: in the place of the first item that was picked
/// out. The items that are not picked out stay, in their order.
proof fn lemma_replaced_place(
    ls: Seq<Seq<char>>,
    pick: spec_fn(Seq<char>) -> bool,
    new: Seq<char>,
) -> (k: int)
    requires
        any_picked(ls, pick),
        pick(new),
    ensures
        ({
            let r = replaced(ls, pick, new);
            &&& 0 <= k < ls.len() && k < r.len()
            &&& pick(ls[k])
            &&& forall|j: int| 0 <= j < k ==> !pick(#[trigger] ls[j])
            &&& r[k] == new
            &&& r.take(k) == ls.take(k)
            &&& without(r, pick) == without(ls, pick)
            &&& r.len() == without(r, pick).len() + 1
        }),
    decreases ls.len(),
{
    let h = ls.drop_last();
    let l = ls.last();
    let w = replaced(h, pick, new);
    let r = replaced(ls, pick, new);
    assert(w.push(l).drop_last() =~= w);
    assert(w.push(new).drop_last() =~= w);
    if any_picked(h, pick) {
        let k = lemma_replaced_place(h, pick, new);
        assert(ls[k] == h[k]);
        assert forall|j: int| 0 <= j < k implies !pick(#[trigger] ls[j]) by {
            assert(ls[j] == h[j]);
        }
        assert(r[k] == w[k]);
        assert(r.take(k) =~= w.take(k));
        assert(ls.take(k) =~= h.take(k));
        k
    } else {
        lemma_none_is_picked(h, pick);
        let k = h.len() as int;
        assert forall|j: int| 0 <= j < k implies !pick(#[trigger] ls[j]) by {
            assert(ls[j] == h[j]);
        }
        assert(r.take(k) =~= h);
        assert(ls.take(k) =~= h);
        k
    }
}

/// After a key was set exactly one line sets it, and says what it was set to. It
/// stands where the key was set first, else at the end; every other line is as it
/// was, to the byte, and in its place.
pub proof fn lemma_one_setting(text: Seq<char>, key: Seq<char>, line: Seq<char>) -> (k: int)
    requires
        is_line(line),
        sets(line, key),
    ensures
        ({
            let after = with_setting(text, key, line);
            let pick = in_pieces(setters(key));
            let before = if any_picked(pieces(text), pick) {
                text
            } else {
                closed(text)
            };
            &&& 0 <= k <= lines(text).len() && k < lines(after).len()
            &&& forall|j: int| 0 <= j < k ==> !sets(#[trigger] lines(text)[j], key)
            &&& k < lines(text).len() ==> sets(lines(text)[k], key)
            &&& lines(after)[k] == line
            &&& pieces(after).take(k) == pieces(before).take(k)
            &&& without(pieces(after), pick) == without(pieces(before), pick)
            &&& pieces(after).len() == without(pieces(after), pick).len() + 1
        }),
{
    let after = with_setting(text, key, line);
    let pick = in_pieces(setters(key));
    let new = line.push('\n');
    let ps = pieces(text);
    lemma_pieces(text);
    lemma_pieces(after);
    lemma_replaced_pieces(ps, setters(key), line);
    lemma_setting_lines(text, key, line);
    assert(new.drop_last() =~= line);
    assert(line_in(new) == line);
    if any_picked(ps, pick) {
        let k = lemma_replaced_place(ps, pick, new);
        assert forall|j: int| 0 <= j < k implies !sets(#[trigger] lines(text)[j], key) by {
            assert(lines_in(ps)[j] == line_in(ps[j]));
            assert(!pick(ps[j]));
        }
        assert(lines_in(ps)[k] == line_in(ps[k]));
        assert(lines_in(pieces(after))[k] == line_in(pieces(after)[k]));
        k
    } else {
        let base = closed(text);
        let k = lines(text).len() as int;
        lemma_none_is_picked(ps, pick);
        lemma_pieces_append(text, line);
        lemma_pieces(base);
        lemma_closed_lines(text);
        let cs = pieces(base);
        assert(cs.len() == lines_in(cs).len() && ps.len() == lines_in(ps).len());
        assert forall|j: int| 0 <= j < k implies !sets(#[trigger] lines(text)[j], key) by {
            assert(lines_in(ps)[j] == line_in(ps[j]));
            assert(!pick(ps[j]));
        }
        assert forall|j: int| 0 <= j < cs.len() implies !pick(#[trigger] cs[j]) by {
            assert(lines_in(cs)[j] == line_in(cs[j]));
            assert(!sets(lines(text)[j], key));
            lemma_cr_says_nothing(lines(text)[j]);
        }
        lemma_keep_all(cs, pick);
        assert(cs.push(new).drop_last() =~= cs);
        assert(pieces(after).take(k) =~= cs.take(k));
        assert(lines(after)[k] == strip_cr(line));
        k
    }
}

proof fn lemma_no_more_settings(
    ls: Seq<Seq<char>>,
    pick: spec_fn(Seq<char>) -> bool,
    a: Seq<char>,
    b: Seq<char>,
)
    requires
        pick(a),
        pick(b),
    ensures
        any_picked(replaced(ls, pick, a), pick) == any_picked(ls, pick),
        replaced(replaced(ls, pick, a), pick, b) == replaced(ls, pick, b),
    decreases ls.len(),
{
    if ls.len() > 0 {
        let h = ls.drop_last();
        let l = ls.last();
        lemma_no_more_settings(h, pick, a, b);
        let w = replaced(h, pick, a);
        assert(w.push(l).drop_last() =~= w);
        assert(w.push(a).drop_last() =~= w);
    }
}

/// Setting a key twice is setting it once: no stale line stays behind, and the
/// last value wins.
pub proof fn lemma_set_twice(text: Seq<char>, key: Seq<char>, a: Seq<char>, b: Seq<char>)
    requires
        is_line(a),
        is_line(b),
        sets(a, key),
        sets(b, key),
    ensures
        with_setting(with_setting(text, key, a), key, b) == with_setting(text, key, b),
{
    let pick = in_pieces(setters(key));
    let (x, y) = (a.push('\n'), b.push('\n'));
    let ps = pieces(text);
    assert(x.drop_last() =~= a && y.drop_last() =~= b);
    assert(pick(x) && pick(y));
    lemma_pieces(text);
    lemma_replaced_pieces(ps, setters(key), a);
    lemma_setting_lines(text, key, a);
    if any_picked(ps, pick) {
        lemma_no_more_settings(ps, pick, x, y);
    } else {
        let k = lemma_one_setting(text, key, a);
        lemma_pieces_append(text, a);
        lemma_pieces_append(text, b);
        lemma_pieces(appended(text, b));
        let cs = pieces(closed(text));
        assert(cs.push(x).drop_last() =~= cs);
        assert(!any_picked(cs, pick)) by {
            if any_picked(cs, pick) {
                lemma_pieces(closed(text));
                let j = lemma_some_picked(cs, pick);
                assert(lines_in(cs)[j] == line_in(cs[j]));
                lemma_closed_lines(text);
                assert(lines_in(ps)[j] == line_in(ps[j]));
                lemma_cr_says_nothing(lines(text)[j]);
                lemma_none_is_picked(ps, pick);
                assert(!pick(ps[j]));
            }
        }
        lemma_none_is_picked(cs, pick);
        assert(replaced(cs, pick, y) == cs);
        assert(cs.push(x).last() == x);
        assert(replaced(cs.push(x), pick, y) == cs.push(y));
        assert(any_picked(cs.push(x), pick));
    }
}

/// Switching the mode leaves exactly one line that sets it, in the place of the
/// first one that did, else at the end; every other line is as it was, to the
/// byte, and in its place. Switching twice is switching once, to the last mode.
pub proof fn lemma_set_mode_writes_one_line(text: Seq<char>, m: Mode, again: Mode) -> (k: int)
    ensures
        ({
            let line = setting_line("mode"@, m.name());
            let after = with_setting(text, "mode"@, line);
            let pick = in_pieces(setters("mode"@));
            let before = if any_picked(pieces(text), pick) {
                text
            } else {
                closed(text)
            };
            &&& 0 <= k <= lines(text).len() && k < lines(after).len()
            &&& forall|j: int| 0 <= j < k ==> !sets(#[trigger] lines(text)[j], "mode"@)
            &&& k < lines(text).len() ==> sets(lines(text)[k], "mode"@)
            &&& lines(after)[k] == line
            &&& pieces(after).take(k) == pieces(before).take(k)
            &&& without(pieces(after), pick) == without(pieces(before), pick)
            &&& pieces(after).len() == without(pieces(after), pick).len() + 1
        }),
        with_setting(
            with_setting(text, "mode"@, setting_line("mode"@, m.name())),
            "mode"@,
            setting_line("mode"@, again.name()),
        ) == with_setting(text, "mode"@, setting_line("mode"@, again.name())),
{
    let a = setting_line("mode"@, m.name());
    let b = setting_line("mode"@, again.name());
    lemma_setting_keys();
    lemma_mode_back(m);
    lemma_mode_back(again);
    lemma_setting_line_means("mode"@, m.name());
    lemma_setting_line_means("mode"@, again.name());
    lemma_set_twice(text, "mode"@, a, b);
    lemma_one_setting(text, "mode"@, a)
}

proof fn lemma_some_picked(ls: Seq<Seq<char>>, pick: spec_fn(Seq<char>) -> bool) -> (j: int)
    requires
        any_picked(ls, pick),
    ensures
        0 <= j < ls.len(),
        pick(ls[j]),
    decreases ls.len(),
{
    if pick(ls.last()) {
        ls.len() - 1
    } else {
        let j = lemma_some_picked(ls.drop_last(), pick);
        assert(ls.drop_last()[j] == ls[j]);
        j
    }
}

} // verus!
