//! The line grammar of the policy file: a key, white space, a value, and a
//! comment that starts at `#`.
use crate::text::{
    copy_chars, find, find_char, find_white, holds, is_trimmed, is_white, just, lemma_find,
    lemma_find_is, lemma_trim_around, lemma_trim_fixed, lemma_trim_push, strip_cr, trim, trim_chars,
    white,
};
use vstd::prelude::*;

verus! {

/// What a line says, without its comment and the white space around it.
pub open spec fn body_of(raw: Seq<char>) -> Seq<char> {
    trim(raw.take(find(raw, just('#'))))
}

/// The comment of a line.
pub open spec fn comment_of(raw: Seq<char>) -> Option<Seq<char>> {
    let i = find(raw, just('#'));
    if i < raw.len() {
        Some(trim(raw.skip(i + 1)))
    } else {
        None
    }
}

/// The first word of a line.
pub open spec fn key_of(body: Seq<char>) -> Seq<char> {
    body.take(find(body, white()))
}

/// What follows the first word.
pub open spec fn value_of(body: Seq<char>) -> Seq<char> {
    let i = find(body, white());
    if i < body.len() {
        trim(body.skip(i + 1))
    } else {
        Seq::empty()
    }
}

/// A line that has both a key and a value.
pub ghost struct Entry {
    pub key: Seq<char>,
    pub value: Seq<char>,
    pub comment: Option<Seq<char>>,
}

/// The entry on a line. A line without a value is no entry.
pub open spec fn entry_of(raw: Seq<char>) -> Option<Entry> {
    let body = body_of(raw);
    if body.len() > 0 && value_of(body).len() > 0 {
        Some(Entry { key: key_of(body), value: value_of(body), comment: comment_of(raw) })
    } else {
        None
    }
}

/// The destination and the binary of a scoped value.
///
/// The destination comes first because it holds no white space, while the path
/// of a binary may.
pub open spec fn scoped_of(v: Seq<char>) -> Option<(Seq<char>, Seq<char>)> {
    let i = find(v, white());
    if 0 < i < v.len() && trim(v.skip(i + 1)).len() > 0 {
        Some((v.take(i), trim(v.skip(i + 1))))
    } else {
        None
    }
}

/// The part of a line before its comment, trimmed.
pub fn line_body(raw: &[char]) -> (r: &[char])
    ensures
        r@ == body_of(raw@),
{
    proof {
        lemma_find(raw@, just('#'));
    }
    let i = find_char(raw, '#');
    let part = &raw[0..i];
    assert(part@ =~= raw@.take(i as int));
    trim_chars(part)
}

/// Split a line into its body and its comment.
pub fn split_comment(raw: &[char]) -> (r: (&[char], Option<Vec<char>>))
    ensures
        r.0@ == raw@.take(find(raw@, just('#'))),
        (match r.1 {
            Some(c) => comment_of(raw@) == Some(c@),
            None => comment_of(raw@) is None,
        }),
{
    proof {
        lemma_find(raw@, just('#'));
    }
    let n: usize = raw.len();
    let i = find_char(raw, '#');
    let part = &raw[0..i];
    assert(part@ =~= raw@.take(i as int));
    if i < n {
        let rest = &raw[i + 1..n];
        assert(rest@ =~= raw@.skip(i + 1));
        (part, Some(copy_chars(trim_chars(rest))))
    } else {
        (part, None)
    }
}

/// Split a body into its key and its value.
pub fn split_key(body: &[char]) -> (r: (&[char], &[char]))
    ensures
        r.0@ == key_of(body@),
        r.1@ == value_of(body@),
{
    proof {
        lemma_find(body@, white());
    }
    let n: usize = body.len();
    let i = find_white(body);
    let key = &body[0..i];
    assert(key@ =~= body@.take(i as int));
    if i < n {
        let rest = &body[i + 1..n];
        assert(rest@ =~= body@.skip(i + 1));
        (key, trim_chars(rest))
    } else {
        let none = &body[n..n];
        assert(none@ =~= Seq::<char>::empty());
        (key, none)
    }
}

/// Read the entry on a line: its key, its value and its comment.
pub fn parse_line(raw: &[char]) -> (r: Option<(Vec<char>, Vec<char>, Option<Vec<char>>)>)
    ensures
        (match r {
            Some((k, v, c)) => entry_of(raw@) == Some(
                Entry {
                    key: k@,
                    value: v@,
                    comment: match c {
                        Some(t) => Some(t@),
                        None => None,
                    },
                },
            ),
            None => entry_of(raw@) is None,
        }),
{
    let (part, comment) = split_comment(raw);
    let body = trim_chars(part);
    if body.len() == 0 {
        return None;
    }
    let (k, v) = split_key(body);
    if v.len() == 0 {
        return None;
    }
    Some((copy_chars(k), copy_chars(v), comment))
}

/// Split a scoped rule value into (destination, binary).
pub fn split_scoped(v: &[char]) -> (r: Option<(Vec<char>, Vec<char>)>)
    ensures
        (match r {
            Some((d, e)) => scoped_of(v@) == Some((d@, e@)),
            None => scoped_of(v@) is None,
        }),
{
    proof {
        lemma_find(v@, white());
    }
    let n: usize = v.len();
    let i = find_white(v);
    if i == 0 || i >= n {
        return None;
    }
    let dest = &v[0..i];
    assert(dest@ =~= v@.take(i as int));
    let rest = &v[i + 1..n];
    assert(rest@ =~= v@.skip(i + 1));
    let exe = trim_chars(rest);
    if exe.len() == 0 {
        return None;
    }
    Some((copy_chars(dest), copy_chars(exe)))
}

/// A carriage return at the end of a line says nothing.
pub proof fn lemma_cr_says_nothing(raw: Seq<char>)
    ensures
        body_of(strip_cr(raw)) == body_of(raw),
        comment_of(strip_cr(raw)) == comment_of(raw),
        entry_of(strip_cr(raw)) == entry_of(raw),
{
    if raw.len() > 0 && raw.last() == '\r' {
        let t = raw.drop_last();
        let hash = just('#');
        assert(t.push('\r') =~= raw);
        lemma_find(raw, hash);
        let i = find(raw, hash);
        if i < raw.len() {
            assert(i < t.len());
            assert forall|j: int| 0 <= j < i implies !hash(#[trigger] t[j]) by {
                assert(t[j] == raw[j]);
            }
            assert(t[i] == raw[i]);
            lemma_find_is(t, hash, i);
            assert(t.take(i) =~= raw.take(i));
            assert(raw.skip(i + 1) =~= t.skip(i + 1).push('\r'));
            lemma_trim_push(t.skip(i + 1), '\r');
        } else {
            lemma_find(t, hash);
            assert forall|j: int| 0 <= j < t.len() implies !hash(#[trigger] t[j]) by {
                assert(t[j] == raw[j]);
            }
            assert(find(t, hash) == t.len());
            assert(t.take(t.len() as int) =~= t);
            assert(raw.take(raw.len() as int) =~= raw);
            lemma_trim_push(t, '\r');
        }
    }
}

// ---------------------------------------------------------------------------
// Lines that say what they were meant to say.
// ---------------------------------------------------------------------------

/// A word that can stand in a line: not empty, no white space, no `#`.
pub open spec fn is_word(w: Seq<char>) -> bool {
    w.len() > 0 && !holds(w, white()) && !holds(w, just('#'))
}

/// A value that can stand in a line: not empty, no white space at either end, no
/// `#` and no line feed.
pub open spec fn is_value(v: Seq<char>) -> bool {
    v.len() > 0 && is_trimmed(v) && !holds(v, just('#')) && !holds(v, just('\n'))
}

proof fn lemma_holds_at(s: Seq<char>, p: spec_fn(char) -> bool, i: int)
    requires
        !holds(s, p),
        0 <= i < s.len(),
    ensures
        !p(s[i]),
{
}

proof fn lemma_holds_concat(a: Seq<char>, b: Seq<char>, p: spec_fn(char) -> bool)
    requires
        !holds(a, p),
        !holds(b, p),
    ensures
        !holds(a + b, p),
{
    assert forall|i: int| 0 <= i < (a + b).len() implies !p(#[trigger] (a + b)[i]) by {
        if i < a.len() {
            assert(!p(a[i]));
        } else {
            assert(!p(b[i - a.len()]));
        }
    }
}

/// A word is a value.
pub proof fn lemma_word_is_value(w: Seq<char>)
    requires
        is_word(w),
    ensures
        is_value(w),
{
    lemma_holds_at(w, white(), 0);
    lemma_holds_at(w, white(), w.len() - 1);
    assert forall|i: int| 0 <= i < w.len() implies !just('\n')(#[trigger] w[i]) by {
        lemma_holds_at(w, white(), i);
    }
}

/// A key and a value on a line are read back, with or without a comment after a
/// tab.
pub proof fn lemma_entry_back(k: Seq<char>, v: Seq<char>, note: Option<Seq<char>>)
    requires
        is_word(k),
        is_value(v),
    ensures
        body_of(entry_line(k, v, note)) == k + seq![' '] + v,
        key_of(k + seq![' '] + v) == k,
        value_of(k + seq![' '] + v) == v,
        entry_of(entry_line(k, v, note)) matches Some(e) && e.key == k && e.value == v && (
        e.comment is None <==> note is None),
{
    let kv = k + seq![' '] + v;
    let raw = entry_line(k, v, note);
    lemma_word_is_value(k);
    assert(!holds(kv, just('#'))) by {
        assert(!holds(seq![' '], just('#')));
        lemma_holds_concat(k, seq![' '], just('#'));
        lemma_holds_concat(k + seq![' '], v, just('#'));
    }
    assert(kv[0] == k[0] && kv.last() == v.last());
    assert(is_trimmed(kv));
    lemma_trim_fixed(kv);
    match note {
        Some(n) => {
            let head = kv + seq!['\t'];
            assert(!holds(seq!['\t'], just('#')));
            lemma_holds_concat(kv, seq!['\t'], just('#'));
            assert forall|j: int| 0 <= j < head.len() implies !just('#')(#[trigger] raw[j]) by {
                assert(raw[j] == head[j]);
                lemma_holds_at(head, just('#'), j);
            }
            assert(raw[head.len() as int] == '#');
            lemma_find_is(raw, just('#'), head.len() as int);
            assert(raw.take(head.len() as int) =~= head);
            lemma_trim_around(Seq::empty(), kv, seq!['\t']);
            assert(Seq::<char>::empty() + kv + seq!['\t'] =~= head);
        },
        None => {
            lemma_find(raw, just('#'));
            assert(raw.take(raw.len() as int) =~= raw);
        },
    }
    assert forall|j: int| 0 <= j < k.len() implies !white()(#[trigger] kv[j]) by {
        assert(kv[j] == k[j]);
        lemma_holds_at(k, white(), j);
    }
    assert(kv[k.len() as int] == ' ');
    lemma_find_is(kv, white(), k.len() as int);
    assert(kv.take(k.len() as int) =~= k);
    assert(kv.skip(k.len() as int + 1) =~= v);
    lemma_trim_fixed(v);
}

/// A line with a key, a value, and perhaps a comment.
pub open spec fn entry_line(k: Seq<char>, v: Seq<char>, note: Option<Seq<char>>) -> Seq<char> {
    match note {
        Some(n) => k + seq![' '] + v + seq!['\t', '#', ' '] + n,
        None => k + seq![' '] + v,
    }
}

/// A destination and a binary, separated by one white character, are read back.
pub proof fn lemma_scoped_back(d: Seq<char>, sep: char, e: Seq<char>)
    requires
        is_word(d),
        is_value(e),
        is_white(sep),
        sep != '\n',
    ensures
        scoped_of(d + seq![sep] + e) == Some((d, e)),
        is_value(d + seq![sep] + e),
{
    let v = d + seq![sep] + e;
    lemma_word_is_value(d);
    assert forall|j: int| 0 <= j < d.len() implies !white()(#[trigger] v[j]) by {
        assert(v[j] == d[j]);
        lemma_holds_at(d, white(), j);
    }
    assert(v[d.len() as int] == sep);
    lemma_find_is(v, white(), d.len() as int);
    assert(v.take(d.len() as int) =~= d);
    assert(v.skip(d.len() as int + 1) =~= e);
    lemma_trim_fixed(e);
    assert(v[0] == d[0] && v.last() == e.last());
    assert(!holds(seq![sep], just('#')));
    assert(!holds(seq![sep], just('\n')));
    lemma_holds_concat(d, seq![sep], just('#'));
    lemma_holds_concat(d + seq![sep], e, just('#'));
    lemma_holds_concat(d, seq![sep], just('\n'));
    lemma_holds_concat(d + seq![sep], e, just('\n'));
}

} // verus!
