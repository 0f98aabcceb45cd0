//! Text as sequences of characters.
//!
//! The policy file, the last-seen table and the command line are all plain
//! text. This module says what it means to find, trim, split and number such
//! text, and provides the executable operations that do so. Everything works
//! on characters, never on byte offsets.
use vstd::prelude::*;

verus! {

// ---------------------------------------------------------------------------
// Moving between strings and characters.
// ---------------------------------------------------------------------------

/// The characters of a string.
pub fn chars_of(s: &str) -> (r: Vec<char>)
    ensures
        r@ == s@,
{
    let mut out: Vec<char> = Vec::new();
    for c in it: s.chars()
        invariant
            out@ == it.seq().take(it.index()),
            it.seq() == s@,
    {
        out.push(c);
        assert(s@.take(it.index() + 1) =~= s@.take(it.index()).push(c));
    }
    assert(s@.take(s@.len() as int) =~= s@);
    out
}

/// A string made of the given characters.
pub fn string_of(c: &[char]) -> (r: String)
    ensures
        r@ == c@,
{
    let mut out = String::new();
    let n: usize = c.len();
    for i in 0..n
        invariant
            n == c@.len(),
            out@ == c@.take(i as int),
    {
        out.push(c[i]);
        assert(c@.take(i + 1) =~= c@.take(i as int).push(c@[i as int]));
    }
    assert(c@.take(n as int) =~= c@);
    out
}

/// A copy of a run of characters.
pub fn copy_chars(c: &[char]) -> (r: Vec<char>)
    ensures
        r@ == c@,
{
    let mut out: Vec<char> = Vec::new();
    let n: usize = c.len();
    for i in 0..n
        invariant
            n == c@.len(),
            out@ == c@.take(i as int),
    {
        out.push(c[i]);
        assert(c@.take(i + 1) =~= c@.take(i as int).push(c@[i as int]));
    }
    assert(c@.take(n as int) =~= c@);
    out
}

/// Append a run of characters to a growing text.
pub fn push_chars(out: &mut Vec<char>, c: &[char])
    ensures
        final(out)@ == old(out)@ + c@,
{
    let n: usize = c.len();
    let ghost start = out@;
    for i in 0..n
        invariant
            n == c@.len(),
            out@ == start + c@.take(i as int),
    {
        out.push(c[i]);
        assert(start + c@.take(i + 1) =~= (start + c@.take(i as int)).push(c@[i as int]));
    }
    assert(c@.take(n as int) =~= c@);
}

/// Append a string to a growing text.
pub fn push_text(out: &mut Vec<char>, s: &str)
    ensures
        final(out)@ == old(out)@ + s@,
{
    let c = chars_of(s);
    push_chars(out, &c);
}

/// Are two runs of characters the same?
pub fn same_chars(a: &[char], b: &[char]) -> (r: bool)
    ensures
        r == (a@ == b@),
{
    if a.len() != b.len() {
        return false;
    }
    let n: usize = a.len();
    for i in 0..n
        invariant
            n == a@.len(),
            n == b@.len(),
            a@.take(i as int) == b@.take(i as int),
    {
        if a[i] != b[i] {
            return false;
        }
        assert(a@.take(i + 1) =~= a@.take(i as int).push(a@[i as int]));
        assert(b@.take(i + 1) =~= b@.take(i as int).push(b@[i as int]));
    }
    assert(a@.take(n as int) =~= a@);
    assert(b@.take(n as int) =~= b@);
    true
}

/// Does a run of characters spell the given word?
pub fn word_is(a: &[char], w: &str) -> (r: bool)
    ensures
        r == (a@ == w@),
{
    let c = chars_of(w);
    same_chars(a, &c)
}

/// Are two strings the same text?
pub fn same(a: &str, b: &str) -> (r: bool)
    ensures
        r == (a@ == b@),
{
    let c = chars_of(a);
    word_is(&c, b)
}

/// Is the first run of characters a prefix of the second?
pub fn starts_with(s: &[char], w: &str) -> (r: bool)
    ensures
        r == (w@.len() <= s@.len() && s@.take(w@.len() as int) == w@),
{
    let c = chars_of(w);
    if s.len() < c.len() {
        return false;
    }
    let head = &s[0..c.len()];
    assert(head@ =~= s@.take(w@.len() as int));
    same_chars(head, &c)
}

/// Does the text end with the given word?
pub open spec fn ends_with(s: Seq<char>, w: Seq<char>) -> bool {
    w.len() <= s.len() && s.skip(s.len() - w.len()) == w
}

/// Does a run of characters end with another one?
pub fn ends_with_chars(s: &[char], w: &[char]) -> (r: bool)
    ensures
        r == ends_with(s@, w@),
{
    if s.len() < w.len() {
        return false;
    }
    let tail = &s[s.len() - w.len()..s.len()];
    assert(tail@ =~= s@.skip(s@.len() - w@.len()));
    same_chars(tail, w)
}

// ---------------------------------------------------------------------------
// Searching.
// ---------------------------------------------------------------------------

/// The characters equal to `c`.
pub open spec fn just(c: char) -> spec_fn(char) -> bool {
    |x: char| x == c
}

/// The Unicode `White_Space` characters.
pub open spec fn is_white(c: char) -> bool {
    ||| '\u{9}' <= c && c <= '\u{d}'
    ||| c == '\u{20}'
    ||| c == '\u{85}'
    ||| c == '\u{a0}'
    ||| c == '\u{1680}'
    ||| '\u{2000}' <= c && c <= '\u{200a}'
    ||| c == '\u{2028}'
    ||| c == '\u{2029}'
    ||| c == '\u{202f}'
    ||| c == '\u{205f}'
    ||| c == '\u{3000}'
}

/// The white-space characters, as a predicate to search with.
pub open spec fn white() -> spec_fn(char) -> bool {
    |x: char| is_white(x)
}

/// The position of the first character satisfying `p`, or the length when
/// there is none.
pub open spec fn find(s: Seq<char>, p: spec_fn(char) -> bool) -> int
    decreases s.len(),
{
    if s.len() == 0 {
        0
    } else if p(s[0]) {
        0
    } else {
        1 + find(s.skip(1), p)
    }
}

/// Does some character of the text satisfy `p`?
pub open spec fn holds(s: Seq<char>, p: spec_fn(char) -> bool) -> bool {
    exists|i: int| 0 <= i < s.len() && p(#[trigger] s[i])
}

/// What `find` returns, without the recursion.
pub proof fn lemma_find(s: Seq<char>, p: spec_fn(char) -> bool)
    ensures
        0 <= find(s, p) <= s.len(),
        forall|j: int| 0 <= j < find(s, p) ==> !p(#[trigger] s[j]),
        find(s, p) < s.len() ==> p(s[find(s, p)]),
        find(s, p) < s.len() <==> holds(s, p),
    decreases s.len(),
{
    if s.len() > 0 && !p(s[0]) {
        let t = s.skip(1);
        lemma_find(t, p);
        assert forall|j: int| 0 <= j < find(s, p) implies !p(#[trigger] s[j]) by {
            if j > 0 {
                assert(s[j] == t[j - 1]);
            }
        }
        if find(s, p) < s.len() {
            assert(s[find(s, p)] == t[find(t, p)]);
        }
    }
}

/// The first match is the only position with nothing matching before it.
pub proof fn lemma_find_is(s: Seq<char>, p: spec_fn(char) -> bool, i: int)
    requires
        0 <= i <= s.len(),
        forall|j: int| 0 <= j < i ==> !p(#[trigger] s[j]),
        i < s.len() ==> p(s[i]),
    ensures
        find(s, p) == i,
{
    lemma_find(s, p);
    let r = find(s, p);
    if r < i {
        assert(!p(s[r]));
    }
    if i < r {
        assert(!p(s[i]));
    }
}

/// The first position of `c`, or the length.
pub fn find_char(s: &[char], c: char) -> (r: usize)
    ensures
        r == find(s@, just(c)),
        r <= s@.len(),
{
    let n: usize = s.len();
    let mut i: usize = 0;
    while i < n
        invariant
            n == s@.len(),
            i <= n,
            forall|j: int| 0 <= j < i ==> !just(c)(#[trigger] s@[j]),
        decreases n - i,
    {
        if s[i] == c {
            proof {
                lemma_find_is(s@, just(c), i as int);
            }
            return i;
        }
        i += 1;
    }
    proof {
        lemma_find_is(s@, just(c), n as int);
    }
    n
}

/// Is this a white-space character?
pub fn is_white_char(c: char) -> (r: bool)
    ensures
        r == is_white(c),
{
    ('\u{9}' <= c && c <= '\u{d}') || c == '\u{20}' || c == '\u{85}' || c == '\u{a0}' || c
        == '\u{1680}' || ('\u{2000}' <= c && c <= '\u{200a}') || c == '\u{2028}' || c == '\u{2029}'
        || c == '\u{202f}' || c == '\u{205f}' || c == '\u{3000}'
}

/// The first white-space position, or the length.
pub fn find_white(s: &[char]) -> (r: usize)
    ensures
        r == find(s@, white()),
        r <= s@.len(),
{
    let n: usize = s.len();
    let mut i: usize = 0;
    while i < n
        invariant
            n == s@.len(),
            i <= n,
            forall|j: int| 0 <= j < i ==> !white()(#[trigger] s@[j]),
        decreases n - i,
    {
        if is_white_char(s[i]) {
            proof {
                lemma_find_is(s@, white(), i as int);
            }
            return i;
        }
        i += 1;
    }
    proof {
        lemma_find_is(s@, white(), n as int);
    }
    n
}

// ---------------------------------------------------------------------------
// Trimming.
// ---------------------------------------------------------------------------

/// The text without its leading white space.
pub open spec fn trim_start(s: Seq<char>) -> Seq<char>
    decreases s.len(),
{
    if s.len() > 0 && is_white(s[0]) {
        trim_start(s.skip(1))
    } else {
        s
    }
}

/// The text without its trailing white space.
pub open spec fn trim_end(s: Seq<char>) -> Seq<char>
    decreases s.len(),
{
    if s.len() > 0 && is_white(s.last()) {
        trim_end(s.drop_last())
    } else {
        s
    }
}

/// The text without white space at either end.
pub open spec fn trim(s: Seq<char>) -> Seq<char> {
    trim_end(trim_start(s))
}

/// Text that neither starts nor ends with white space.
pub open spec fn is_trimmed(s: Seq<char>) -> bool {
    s.len() > 0 ==> !is_white(s[0]) && !is_white(s.last())
}

/// Trimmed text is what trimming leaves alone.
pub proof fn lemma_trim_fixed(s: Seq<char>)
    requires
        is_trimmed(s),
    ensures
        trim(s) == s,
{
}

/// Trimming at the end keeps a prefix that does not end in white space.
pub proof fn lemma_trim_end_prefix(s: Seq<char>) -> (k: int)
    ensures
        0 <= k <= s.len(),
        trim_end(s) == s.take(k),
        k > 0 ==> !is_white(s[k - 1]),
        forall|j: int| k <= j < s.len() ==> is_white(#[trigger] s[j]),
    decreases s.len(),
{
    if s.len() > 0 && is_white(s.last()) {
        let t = s.drop_last();
        let k = lemma_trim_end_prefix(t);
        assert(t.take(k) =~= s.take(k));
        assert forall|j: int| k <= j < s.len() implies is_white(#[trigger] s[j]) by {
            if j < s.len() - 1 {
                assert(s[j] == t[j]);
            }
        }
        k
    } else {
        assert(s.take(s.len() as int) =~= s);
        s.len() as int
    }
}

/// Trimming at the start keeps a suffix that does not start with white space.
pub proof fn lemma_trim_start_suffix(s: Seq<char>) -> (k: int)
    ensures
        0 <= k <= s.len(),
        trim_start(s) == s.skip(k),
        k < s.len() ==> !is_white(s[k]),
        forall|j: int| 0 <= j < k ==> is_white(#[trigger] s[j]),
    decreases s.len(),
{
    if s.len() > 0 && is_white(s[0]) {
        let t = s.skip(1);
        let k = lemma_trim_start_suffix(t);
        assert(t.skip(k) =~= s.skip(k + 1));
        assert forall|j: int| 0 <= j < k + 1 implies is_white(#[trigger] s[j]) by {
            if j > 0 {
                assert(s[j] == t[j - 1]);
            }
        }
        k + 1
    } else {
        assert(s.skip(0) =~= s);
        0
    }
}

/// What is left after trimming has no white space at either end.
pub proof fn lemma_trim_is_trimmed(s: Seq<char>)
    ensures
        is_trimmed(trim(s)),
{
    let a = lemma_trim_start_suffix(s);
    let t = s.skip(a);
    let b = lemma_trim_end_prefix(t);
    if t.take(b).len() > 0 {
        assert(t.take(b)[0] == t[0]);
        assert(t.take(b).last() == t[b - 1]);
    }
}

/// Trimming keeps a contiguous part of the text.
pub proof fn lemma_trim_part(s: Seq<char>) -> (r: (int, int))
    ensures
        0 <= r.0 <= r.1 <= s.len(),
        trim(s) == s.subrange(r.0, r.1),
{
    let a = lemma_trim_start_suffix(s);
    let t = s.skip(a);
    let b = lemma_trim_end_prefix(t);
    assert(t.take(b) =~= s.subrange(a, a + b));
    (a, a + b)
}

/// White space around a trimmed text is all that trimming removes.
pub proof fn lemma_trim_around(a: Seq<char>, s: Seq<char>, b: Seq<char>)
    requires
        forall|i: int| 0 <= i < a.len() ==> is_white(#[trigger] a[i]),
        forall|i: int| 0 <= i < b.len() ==> is_white(#[trigger] b[i]),
        s.len() > 0,
        is_trimmed(s),
    ensures
        trim(a + s + b) == s,
    decreases a.len() + b.len(),
{
    let w = a + s + b;
    if a.len() > 0 {
        assert(w[0] == a[0]);
        assert(w.skip(1) =~= a.skip(1) + s + b);
        assert forall|i: int| 0 <= i < a.skip(1).len() implies is_white(
            #[trigger] a.skip(1)[i],
        ) by {
            assert(a.skip(1)[i] == a[i + 1]);
        }
        lemma_trim_around(a.skip(1), s, b);
    } else if b.len() > 0 {
        assert(w =~= s + b);
        assert(w[0] == s[0]);
        assert(w.last() == b.last());
        assert(b.last() == b[b.len() - 1]);
        assert(w.drop_last() =~= a + s + b.drop_last());
        assert(w.drop_last()[0] == s[0]);
        lemma_trim_around(a, s, b.drop_last());
    } else {
        assert(w =~= s);
    }
}

/// White space at the end makes no difference to trimming.
pub proof fn lemma_trim_push(s: Seq<char>, c: char)
    requires
        is_white(c),
    ensures
        trim(s.push(c)) == trim(s),
    decreases s.len(),
{
    let t = s.push(c);
    if s.len() == 0 {
        assert(t.skip(1) =~= s);
    } else if is_white(s[0]) {
        assert(t[0] == s[0]);
        assert(t.skip(1) =~= s.skip(1).push(c));
        lemma_trim_push(s.skip(1), c);
    } else {
        assert(t[0] == s[0]);
        assert(t.drop_last() =~= s);
    }
}

/// The run of characters without white space at either end.
pub fn trim_chars(s: &[char]) -> (r: &[char])
    ensures
        r@ == trim(s@),
{
    let n: usize = s.len();
    let mut a: usize = 0;
    assert(s@.skip(0) =~= s@);
    while a < n && is_white_char(s[a])
        invariant
            n == s@.len(),
            a <= n,
            trim_start(s@) == trim_start(s@.skip(a as int)),
        decreases n - a,
    {
        assert(s@.skip(a as int).skip(1) =~= s@.skip(a + 1));
        assert(s@.skip(a as int)[0] == s@[a as int]);
        a += 1;
    }
    assert(trim_start(s@) == s@.skip(a as int)) by {
        if a < n {
            assert(s@.skip(a as int)[0] == s@[a as int]);
        }
    }
    let ghost t = s@.skip(a as int);
    let mut b: usize = n;
    assert(t =~= s@.subrange(a as int, b as int));
    while a < b && is_white_char(s[b - 1])
        invariant
            n == s@.len(),
            a <= b <= n,
            trim_end(t) == trim_end(s@.subrange(a as int, b as int)),
        decreases b,
    {
        let ghost u = s@.subrange(a as int, b as int);
        assert(u.last() == s@[b - 1]);
        assert(u.drop_last() =~= s@.subrange(a as int, b - 1));
        b -= 1;
    }
    assert(trim_end(t) == s@.subrange(a as int, b as int)) by {
        let u = s@.subrange(a as int, b as int);
        if a < b {
            assert(u.last() == s@[b - 1]);
        }
    }
    &s[a..b]
}

// ---------------------------------------------------------------------------
// Splitting.
// ---------------------------------------------------------------------------

/// Several runs of characters, seen as texts.
pub open spec fn rows(v: Seq<Vec<char>>) -> Seq<Seq<char>> {
    Seq::new(v.len(), |i: int| v[i]@)
}

/// The texts between the occurrences of `c`; always at least one.
pub open spec fn split(s: Seq<char>, c: char) -> Seq<Seq<char>>
    decreases s.len(),
{
    let i = find(s, just(c));
    if 0 <= i < s.len() {
        seq![s.take(i)] + split(s.skip(i + 1), c)
    } else {
        seq![s]
    }
}

/// Splitting peels off everything before the first separator.
pub proof fn lemma_split_first(p: Seq<char>, c: char, rest: Seq<char>)
    requires
        !holds(p, just(c)),
    ensures
        split(p + seq![c] + rest, c) == seq![p] + split(rest, c),
{
    let s = p + seq![c] + rest;
    assert(s[p.len() as int] == c);
    assert forall|j: int| 0 <= j < p.len() implies !just(c)(#[trigger] s[j]) by {
        assert(s[j] == p[j]);
    }
    lemma_find_is(s, just(c), p.len() as int);
    assert(s.take(p.len() as int) =~= p);
    assert(s.skip(p.len() as int + 1) =~= rest);
}

/// Text without the separator is a single piece.
pub proof fn lemma_split_one(p: Seq<char>, c: char)
    requires
        !holds(p, just(c)),
    ensures
        split(p, c) == seq![p],
{
    lemma_find(p, just(c));
}

/// Every character that is not the separator lies in some piece.
pub proof fn lemma_split_covers(s: Seq<char>, c: char, k: int) -> (r: (int, int))
    requires
        0 <= k < s.len(),
        s[k] != c,
    ensures
        0 <= r.0 < split(s, c).len(),
        0 <= r.1 < split(s, c)[r.0].len(),
        split(s, c)[r.0][r.1] == s[k],
    decreases s.len(),
{
    lemma_find(s, just(c));
    let i = find(s, just(c));
    if i < s.len() {
        let rest = s.skip(i + 1);
        if k < i {
            assert(split(s, c)[0] == s.take(i));
            (0, k)
        } else {
            assert(k > i);
            assert(rest[k - i - 1] == s[k]);
            let r = lemma_split_covers(rest, c, k - i - 1);
            assert(split(s, c)[r.0 + 1] == split(rest, c)[r.0]);
            (r.0 + 1, r.1)
        }
    } else {
        (0, k)
    }
}

/// The texts between the occurrences of `c`.
pub fn split_chars(s: &[char], c: char) -> (r: Vec<Vec<char>>)
    ensures
        rows(r@) == split(s@, c),
{
    let mut out: Vec<Vec<char>> = Vec::new();
    let n: usize = s.len();
    let mut from: usize = 0;
    assert(s@.skip(0) =~= s@);
    assert(rows(out@) + split(s@, c) =~= split(s@, c));
    loop
        invariant
            n == s@.len(),
            from <= n,
            rows(out@) + split(s@.skip(from as int), c) == split(s@, c),
        decreases n - from,
    {
        let rest = &s[from..n];
        assert(rest@ =~= s@.skip(from as int));
        let i = find_char(rest, c);
        let piece = copy_chars(&rest[0..i]);
        assert(piece@ =~= rest@.take(i as int));
        let ghost before = out@;
        out.push(piece);
        assert(rows(out@) =~= rows(before).push(piece@));
        if i == rest.len() {
            assert(rest@.take(i as int) =~= rest@);
            assert(rows(out@) =~= rows(before) + seq![rest@]);
            return out;
        }
        assert(rest@.skip(i + 1) =~= s@.skip(from + i + 1));
        assert(rows(out@) + split(s@.skip(from + i + 1), c) =~= rows(before) + (seq![
            rest@.take(i as int),
        ] + split(rest@.skip(i + 1), c)));
        from = from + i + 1;
    }
}

// ---------------------------------------------------------------------------
// Lines.
// ---------------------------------------------------------------------------

/// A line without the carriage return that may end it.
pub open spec fn strip_cr(s: Seq<char>) -> Seq<char> {
    if s.len() > 0 && s.last() == '\r' {
        s.drop_last()
    } else {
        s
    }
}

/// The lines of a text. A line ends at a line feed, and a carriage return just
/// before that line feed belongs to the ending; the last line needs no ending.
pub open spec fn lines(t: Seq<char>) -> Seq<Seq<char>>
    decreases t.len(),
{
    let i = find(t, just('\n'));
    if t.len() == 0 {
        Seq::empty()
    } else if 0 <= i < t.len() {
        seq![strip_cr(t.take(i))] + lines(t.skip(i + 1))
    } else {
        seq![t]
    }
}

/// Lines put back together, each with a line feed after it.
pub open spec fn unlines(ls: Seq<Seq<char>>) -> Seq<char>
    decreases ls.len(),
{
    if ls.len() == 0 {
        Seq::empty()
    } else {
        unlines(ls.drop_last()) + ls.last() + seq!['\n']
    }
}

/// A text that reads back as the one line it is: no line feed inside, and no
/// carriage return at the end.
pub open spec fn is_line(l: Seq<char>) -> bool {
    !holds(l, just('\n')) && (l.len() > 0 ==> l.last() != '\r')
}

/// A text that is empty or ends with a line feed.
pub open spec fn is_closed(t: Seq<char>) -> bool {
    t.len() > 0 ==> t.last() == '\n'
}

/// Appending a line to a closed text adds exactly that line. A carriage return at
/// its end becomes part of the ending.
pub proof fn lemma_lines_append(t: Seq<char>, l: Seq<char>)
    requires
        is_closed(t),
        !holds(l, just('\n')),
    ensures
        lines(t + l + seq!['\n']) == lines(t).push(strip_cr(l)),
        is_closed(t + l + seq!['\n']),
    decreases t.len(),
{
    let nl = just('\n');
    let s = t + l + seq!['\n'];
    if t.len() == 0 {
        assert(s =~= l + seq!['\n']);
        assert forall|j: int| 0 <= j < l.len() implies !nl(#[trigger] s[j]) by {
            assert(s[j] == l[j]);
        }
        lemma_find_is(s, nl, l.len() as int);
        assert(s.take(l.len() as int) =~= l);
        assert(s.skip(l.len() as int + 1) =~= Seq::<char>::empty());
        assert(lines(s.skip(l.len() as int + 1)) =~= Seq::<Seq<char>>::empty());
        assert(lines(s) =~= seq![strip_cr(l)]);
        assert(lines(t).push(strip_cr(l)) =~= seq![strip_cr(l)]);
    } else {
        lemma_find(t, nl);
        assert(nl(t[t.len() - 1]));
        let i = find(t, nl);
        assert(i < t.len());
        assert forall|j: int| 0 <= j < i implies !nl(#[trigger] s[j]) by {
            assert(s[j] == t[j]);
        }
        assert(s[i] == t[i]);
        lemma_find_is(s, nl, i);
        assert(s.take(i) =~= t.take(i));
        let u = t.skip(i + 1);
        assert(s.skip(i + 1) =~= u + l + seq!['\n']);
        lemma_lines_append(u, l);
        assert(lines(s) =~= lines(t).push(strip_cr(l)));
    }
}

/// No line of a text holds a line feed.
pub proof fn lemma_lines_have_no_feed(t: Seq<char>, k: int)
    requires
        0 <= k < lines(t).len(),
    ensures
        !holds(lines(t)[k], just('\n')),
    decreases t.len(),
{
    let nl = just('\n');
    lemma_find(t, nl);
    let i = find(t, nl);
    if t.len() > 0 && i < t.len() {
        if k == 0 {
            let l = strip_cr(t.take(i));
            assert forall|j: int| 0 <= j < l.len() implies !nl(#[trigger] l[j]) by {
                assert(l[j] == t[j]);
            }
        } else {
            lemma_lines_have_no_feed(t.skip(i + 1), k - 1);
        }
    }
}

/// Lines put back together are closed, and read back as the same lines.
pub proof fn lemma_lines_unlines(ls: Seq<Seq<char>>)
    requires
        forall|i: int| 0 <= i < ls.len() ==> is_line(#[trigger] ls[i]),
    ensures
        is_closed(unlines(ls)),
        lines(unlines(ls)) == ls,
    decreases ls.len(),
{
    if ls.len() > 0 {
        let h = ls.drop_last();
        assert forall|i: int| 0 <= i < h.len() implies is_line(#[trigger] h[i]) by {
            assert(h[i] == ls[i]);
        }
        lemma_lines_unlines(h);
        assert(is_line(ls[ls.len() - 1]));
        lemma_lines_append(unlines(h), ls.last());
        assert(h.push(ls.last()) =~= ls);
    } else {
        assert(lines(unlines(ls)) =~= ls);
    }
}

/// The lines of a text.
pub fn split_lines(t: &[char]) -> (r: Vec<Vec<char>>)
    ensures
        rows(r@) == lines(t@),
{
    let mut out: Vec<Vec<char>> = Vec::new();
    let n: usize = t.len();
    let mut from: usize = 0;
    assert(t@.skip(0) =~= t@);
    assert(rows(out@) + lines(t@) =~= lines(t@));
    while from < n
        invariant
            n == t@.len(),
            from <= n,
            rows(out@) + lines(t@.skip(from as int)) == lines(t@),
        decreases n - from,
    {
        let rest = &t[from..n];
        assert(rest@ =~= t@.skip(from as int));
        let i = find_char(rest, '\n');
        let ghost before = out@;
        if i == rest.len() {
            let line = copy_chars(rest);
            out.push(line);
            assert(rows(out@) =~= rows(before) + seq![rest@]);
            return out;
        }
        let head = &rest[0..i];
        assert(head@ =~= rest@.take(i as int));
        let line = if i > 0 && rest[i - 1] == '\r' {
            let cut = copy_chars(&rest[0..i - 1]);
            assert(cut@ =~= head@.drop_last());
            cut
        } else {
            copy_chars(head)
        };
        assert(line@ == strip_cr(rest@.take(i as int)));
        out.push(line);
        assert(rest@.skip(i + 1) =~= t@.skip(from + i + 1));
        assert(rows(out@) =~= rows(before).push(line@));
        assert(rows(out@) + lines(t@.skip(from + i + 1)) =~= rows(before) + (seq![line@] + lines(
            rest@.skip(i + 1),
        )));
        from = from + i + 1;
    }
    assert(t@.skip(n as int) =~= Seq::<char>::empty());
    assert(rows(out@) + lines(t@.skip(n as int)) =~= rows(out@));
    out
}

// ---------------------------------------------------------------------------
// Pieces.
// ---------------------------------------------------------------------------

/// The pieces of a text: each line with the ending that it has. The last one may
/// have none.
pub open spec fn pieces(t: Seq<char>) -> Seq<Seq<char>>
    decreases t.len(),
{
    let i = find(t, just('\n'));
    if t.len() == 0 {
        Seq::empty()
    } else if 0 <= i < t.len() {
        seq![t.take(i + 1)] + pieces(t.skip(i + 1))
    } else {
        seq![t]
    }
}

/// The line in a piece.
pub open spec fn line_in(p: Seq<char>) -> Seq<char> {
    if p.len() > 0 && p.last() == '\n' {
        strip_cr(p.drop_last())
    } else {
        p
    }
}

/// The lines in some pieces.
pub open spec fn lines_in(ps: Seq<Seq<char>>) -> Seq<Seq<char>> {
    Seq::new(ps.len(), |i: int| line_in(ps[i]))
}

/// Pieces put back together, with nothing between them.
pub open spec fn joined(ps: Seq<Seq<char>>) -> Seq<char>
    decreases ps.len(),
{
    if ps.len() == 0 {
        Seq::empty()
    } else {
        joined(ps.drop_last()) + ps.last()
    }
}

/// Could this be a piece: not empty, and no line feed but at its end?
pub open spec fn is_piece(p: Seq<char>) -> bool {
    p.len() > 0 && !holds(p.drop_last(), just('\n'))
}

/// Could these be the pieces of a text: is every one but the last ended?
pub open spec fn is_cut(ps: Seq<Seq<char>>) -> bool {
    forall|i: int|
        0 <= i < ps.len() ==> is_piece(#[trigger] ps[i]) && (i < ps.len() - 1 ==> ps[i].last()
            == '\n')
}

/// Putting pieces together goes by parts.
pub proof fn lemma_joined_concat(a: Seq<Seq<char>>, b: Seq<Seq<char>>)
    ensures
        joined(a + b) == joined(a) + joined(b),
    decreases b.len(),
{
    if b.len() == 0 {
        assert(a + b =~= a);
        assert(joined(a) + joined(b) =~= joined(a));
    } else {
        assert((a + b).drop_last() =~= a + b.drop_last());
        lemma_joined_concat(a, b.drop_last());
        assert(joined(a + b) =~= joined(a) + joined(b));
    }
}

proof fn lemma_joined_one(p: Seq<char>)
    ensures
        joined(seq![p]) == p,
{
    assert(seq![p].drop_last() =~= Seq::<Seq<char>>::empty());
    assert(joined(Seq::<Seq<char>>::empty()) =~= Seq::<char>::empty());
    assert(seq![p].last() == p);
    assert(joined(seq![p]) =~= p);
}

/// The pieces of a text are its lines, and make up the text.
pub proof fn lemma_pieces(t: Seq<char>)
    ensures
        is_cut(pieces(t)),
        joined(pieces(t)) == t,
        lines_in(pieces(t)) == lines(t),
        is_closed(t) && t.len() > 0 ==> pieces(t).last().last() == '\n',
        t.len() > 0 ==> pieces(t).len() > 0,
    decreases t.len(),
{
    let nl = just('\n');
    lemma_find(t, nl);
    let i = find(t, nl);
    if t.len() == 0 {
        assert(lines_in(pieces(t)) =~= lines(t));
    } else if i < t.len() {
        let p = t.take(i + 1);
        let rest = t.skip(i + 1);
        lemma_pieces(rest);
        assert(p.drop_last() =~= t.take(i));
        assert forall|j: int| 0 <= j < i implies !nl(#[trigger] p.drop_last()[j]) by {
            assert(p.drop_last()[j] == t[j]);
        }
        assert(p.last() == '\n');
        let ps = pieces(t);
        assert(ps =~= seq![p] + pieces(rest));
        assert forall|j: int| 0 <= j < ps.len() implies is_piece(#[trigger] ps[j]) && (j
            < ps.len() - 1 ==> ps[j].last() == '\n') by {
            if j > 0 {
                assert(ps[j] == pieces(rest)[j - 1]);
            }
        }
        lemma_joined_concat(seq![p], pieces(rest));
        lemma_joined_one(p);
        assert(p + rest =~= t);
        assert(lines_in(ps) =~= lines(t)) by {
            assert forall|j: int| 0 <= j < ps.len() implies line_in(#[trigger] ps[j]) == lines(
                t,
            )[j] by {
                if j > 0 {
                    assert(ps[j] == pieces(rest)[j - 1]);
                    assert(lines(rest)[j - 1] == lines_in(pieces(rest))[j - 1]);
                }
            }
            assert(lines(rest).len() == lines_in(pieces(rest)).len());
        }
        if rest.len() > 0 {
            assert(rest.last() == t.last());
            assert(ps.last() == pieces(rest).last());
        }
    } else {
        assert forall|j: int| 0 <= j < t.drop_last().len() implies !nl(
            #[trigger] t.drop_last()[j],
        ) by {
            assert(t.drop_last()[j] == t[j]);
        }
        assert(!nl(t[t.len() - 1]));
        lemma_joined_one(t);
        assert(lines_in(pieces(t)) =~= lines(t));
    }
}

/// Pieces that were put together come apart again where they met.
pub proof fn lemma_pieces_joined(ps: Seq<Seq<char>>)
    requires
        is_cut(ps),
    ensures
        pieces(joined(ps)) == ps,
        lines(joined(ps)) == lines_in(ps),
        is_closed(joined(ps)) <==> (ps.len() > 0 ==> ps.last().last() == '\n'),
    decreases ps.len(),
{
    let nl = just('\n');
    if ps.len() == 0 {
        assert(pieces(joined(ps)) =~= ps);
        assert(lines(joined(ps)) =~= lines_in(ps));
    } else {
        let p = ps[0];
        let rest = ps.skip(1);
        assert(is_piece(ps[0]));
        assert forall|j: int| 0 <= j < rest.len() implies is_piece(#[trigger] rest[j]) && (j
            < rest.len() - 1 ==> rest[j].last() == '\n') by {
            assert(rest[j] == ps[j + 1]);
        }
        lemma_pieces_joined(rest);
        assert(ps =~= seq![p] + rest);
        lemma_joined_concat(seq![p], rest);
        lemma_joined_one(p);
        let t = joined(ps);
        assert(t =~= p + joined(rest));
        assert forall|j: int| 0 <= j < p.len() - 1 implies !nl(#[trigger] t[j]) by {
            assert(t[j] == p.drop_last()[j]);
        }
        if p.last() == '\n' {
            assert(t[p.len() - 1] == '\n');
            lemma_find_is(t, nl, p.len() - 1);
            assert(t.take(p.len() as int) =~= p);
            assert(t.skip(p.len() as int) =~= joined(rest));
            assert(pieces(t) =~= ps);
        } else {
            assert(ps.len() == 1);
            assert(rest =~= Seq::<Seq<char>>::empty());
            assert(t =~= p);
            assert(t[t.len() - 1] == p.last());
            lemma_find(t, nl);
            assert(pieces(t) =~= ps);
        }
        lemma_pieces(t);
        assert(t.last() == ps.last().last()) by {
            if rest.len() > 0 {
                assert(ps.last() == rest.last());
                assert(joined(rest) =~= joined(rest.drop_last()) + rest.last());
                assert(is_piece(rest[rest.len() - 1]));
            }
        }
    }
}

/// The line in a piece.
pub fn piece_line(p: &[char]) -> (r: &[char])
    ensures
        r@ == line_in(p@),
{
    let n: usize = p.len();
    if n > 0 && p[n - 1] == '\n' {
        assert(p@.drop_last() =~= p@.subrange(0, n - 1));
        if n > 1 && p[n - 2] == '\r' {
            let cut = &p[0..n - 2];
            assert(cut@ =~= p@.drop_last().drop_last());
            cut
        } else {
            let cut = &p[0..n - 1];
            assert(cut@ =~= p@.drop_last());
            cut
        }
    } else {
        p
    }
}

/// The pieces of a text.
pub fn split_pieces(t: &[char]) -> (r: Vec<Vec<char>>)
    ensures
        rows(r@) == pieces(t@),
{
    let mut out: Vec<Vec<char>> = Vec::new();
    let n: usize = t.len();
    let mut from: usize = 0;
    assert(t@.skip(0) =~= t@);
    assert(rows(out@) + pieces(t@) =~= pieces(t@));
    while from < n
        invariant
            n == t@.len(),
            from <= n,
            rows(out@) + pieces(t@.skip(from as int)) == pieces(t@),
        decreases n - from,
    {
        let rest = &t[from..n];
        assert(rest@ =~= t@.skip(from as int));
        let i = find_char(rest, '\n');
        let ghost before = out@;
        if i == rest.len() {
            let piece = copy_chars(rest);
            out.push(piece);
            assert(rows(out@) =~= rows(before) + seq![rest@]);
            return out;
        }
        let piece = copy_chars(&rest[0..i + 1]);
        assert(piece@ =~= rest@.take(i + 1));
        out.push(piece);
        assert(rest@.skip(i + 1) =~= t@.skip(from + i + 1));
        assert(rows(out@) =~= rows(before).push(piece@));
        assert(rows(out@) + pieces(t@.skip(from + i + 1)) =~= rows(before) + (seq![piece@]
            + pieces(rest@.skip(i + 1))));
        from = from + i + 1;
    }
    assert(t@.skip(n as int) =~= Seq::<char>::empty());
    assert(rows(out@) + pieces(t@.skip(n as int)) =~= rows(out@));
    out
}

// ---------------------------------------------------------------------------
// Appending.
// ---------------------------------------------------------------------------

/// A text whose last line is ended.
pub open spec fn closed(t: Seq<char>) -> Seq<char> {
    if is_closed(t) {
        t
    } else {
        t.push('\n')
    }
}

/// A text with one more line, which stands on its own.
pub open spec fn appended(t: Seq<char>, l: Seq<char>) -> Seq<char> {
    closed(t) + l + seq!['\n']
}

/// Ending the last line of a text changes no line but for a carriage return at
/// its very end, which becomes part of the ending.
pub proof fn lemma_closed_lines(t: Seq<char>)
    ensures
        is_closed(closed(t)),
        is_closed(t) ==> closed(t) == t,
        !is_closed(t) ==> lines(t).len() > 0 && lines(closed(t)) == lines(t).drop_last().push(
            strip_cr(lines(t).last()),
        ),
    decreases t.len(),
{
    let nl = just('\n');
    if !is_closed(t) {
        let s = closed(t);
        lemma_find(t, nl);
        let i = find(t, nl);
        if i < t.len() {
            assert forall|j: int| 0 <= j < i implies !nl(#[trigger] s[j]) by {
                assert(s[j] == t[j]);
            }
            assert(s[i] == t[i]);
            lemma_find_is(s, nl, i);
            assert(s.take(i) =~= t.take(i));
            let u = t.skip(i + 1);
            assert(u.len() > 0 && u.last() == t.last());
            assert(s.skip(i + 1) =~= closed(u));
            lemma_closed_lines(u);
            assert(lines(t) =~= seq![strip_cr(t.take(i))] + lines(u));
            assert(lines(s) =~= lines(t).drop_last().push(strip_cr(lines(t).last())));
        } else {
            assert forall|j: int| 0 <= j < t.len() implies !nl(#[trigger] s[j]) by {
                assert(s[j] == t[j]);
            }
            lemma_find_is(s, nl, t.len() as int);
            assert(s.take(t.len() as int) =~= t);
            assert(s.skip(t.len() as int + 1) =~= Seq::<char>::empty());
            assert(lines(s.skip(t.len() as int + 1)) =~= Seq::<Seq<char>>::empty());
            assert(lines(s) =~= seq![strip_cr(t)]);
            assert(lines(t).drop_last().push(strip_cr(t)) =~= seq![strip_cr(t)]);
        }
    }
}

/// A line appended to a text is its last piece.
pub proof fn lemma_pieces_append(t: Seq<char>, l: Seq<char>)
    requires
        !holds(l, just('\n')),
    ensures
        pieces(appended(t, l)) == pieces(closed(t)).push(l.push('\n')),
        lines(appended(t, l)) == lines(closed(t)).push(strip_cr(l)),
        is_closed(appended(t, l)),
{
    let base = closed(t);
    let p = l.push('\n');
    let ps = pieces(base).push(p);
    lemma_closed_lines(t);
    lemma_pieces(base);
    assert(p.drop_last() =~= l);
    assert forall|i: int| 0 <= i < ps.len() implies is_piece(#[trigger] ps[i]) && (i < ps.len() - 1
        ==> ps[i].last() == '\n') by {
        if i < pieces(base).len() {
            assert(ps[i] == pieces(base)[i]);
            if i == pieces(base).len() - 1 {
                assert(pieces(base).last() == ps[i]);
                if base.len() == 0 {
                    assert(pieces(base).len() == 0);
                }
            }
        }
    }
    assert(ps.drop_last() =~= pieces(base));
    assert(joined(ps) =~= appended(t, l));
    lemma_pieces_joined(ps);
    assert(lines_in(ps) =~= lines_in(pieces(base)).push(strip_cr(l)));
}

} // verus!
