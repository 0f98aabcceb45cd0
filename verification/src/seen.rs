//! When did this binary last talk to this destination?
//!
//! Not traffic accounting: only the first packet of a connection is ever seen,
//! so a time stamp is what can be observed of every protocol. The table lives in
//! memory and is written to a small file now and then, for other programs to
//! read.
use crate::number::{dec, lemma_number_of_dec, number_of, parse_number, push_dec};
use crate::platform::{
    ascii_lower_char, is_clock_reading, lemma_ascii_lowercase_again, lowercase, to_lower,
    unix_seconds,
};
use crate::table::{Keyed, Table};
use crate::text::{
    chars_of, find, find_char, holds, is_line, just, lemma_find, lemma_find_is, lemma_lines_unlines,
    lines, push_text, rows, split_lines, string_of, unlines, word_is,
};
use crate::words::lower_chars;
use vstd::prelude::*;
use vstd::utf8::is_ascii_chars;

verus! {

/// Where the table is kept.
pub const PATH: &'static str = "/var/run/pfsnitch/lastseen";

/// How many entries are kept before the table starts over.
pub const MAX_SEEN: usize = 4096;

/// Times by binary and destination, in seconds since the epoch.
pub type Times = Map<(Seq<char>, Seq<char>), u64>;

/// When each binary last contacted each destination.
pub struct Seen {
    /// By (binary, destination as a rule would spell it).
    pub map: Table<(String, String), u64>,
    /// Has anything changed since the table was last written?
    pub dirty: bool,
    /// When it was last written, on a monotonic clock, in nanoseconds.
    pub last_flush: Option<u64>,
}

/// The table and its state as a value.
#[verifier::ext_equal]
pub ghost struct SeenView {
    pub times: Times,
    pub dirty: bool,
    pub last_flush: Option<u64>,
}

impl View for Seen {
    type V = SeenView;

    open spec fn view(&self) -> SeenView {
        SeenView { times: self.map@, dirty: self.dirty, last_flush: self.last_flush }
    }
}

/// A reading of the clock in seconds since the epoch: zero for a clock set before
/// it.
pub fn seconds(reading: Option<u64>) -> (r: u64)
    ensures
        r == (match reading {
            Some(t) => t,
            None => 0,
        }),
{
    match reading {
        Some(t) => t,
        None => 0,
    }
}

/// The seconds since the epoch, or zero on a clock set before it. What the clock
/// says is not known; the result is what it says.
pub fn now() -> (r: u64)
    ensures
        exists|t: Option<u64>| #[trigger]
            is_clock_reading(t) && r == (match t {
                Some(s) => s,
                None => 0,
            }),
{
    let t = unix_seconds();
    assert(is_clock_reading(t));
    seconds(t)
}

// ---------------------------------------------------------------------------
// The file.
// ---------------------------------------------------------------------------

/// One line of the table: the time, the destination and the binary, separated by
/// tabs. The destination comes before the binary because it holds no tab, while
/// a path may.
pub open spec fn seen_line(key: (Seq<char>, Seq<char>), ts: u64) -> Seq<char> {
    dec(ts as nat) + seq!['\t'] + key.1 + seq!['\t'] + key.0
}

/// What a line of the table says.
pub open spec fn seen_entry(line: Seq<char>) -> Option<((Seq<char>, Seq<char>), u64)> {
    let i = find(line, just('\t'));
    let rest = line.skip(i + 1);
    let j = find(rest, just('\t'));
    if i < line.len() && j < rest.len() {
        match number_of(line.take(i), u64::MAX as nat) {
            Some(t) => Some(((rest.skip(j + 1), lowercase(rest.take(j))), t as u64)),
            None => None,
        }
    } else {
        None
    }
}

/// The times that some lines record; the last line for a pair wins.
pub open spec fn times_in(ls: Seq<Seq<char>>) -> Times
    decreases ls.len(),
{
    if ls.len() == 0 {
        Map::empty()
    } else {
        match seen_entry(ls.last()) {
            Some((k, t)) => times_in(ls.drop_last()).insert(k, t),
            None => times_in(ls.drop_last()),
        }
    }
}

fn parse_entry(line: &[char]) -> (r: Option<((String, String), u64)>)
    ensures
        (match r {
            Some((k, t)) => seen_entry(line@) == Some(((k.0@, k.1@), t)),
            None => seen_entry(line@) is None,
        }),
{
    proof {
        lemma_find(line@, just('\t'));
    }
    let n: usize = line.len();
    let i = find_char(line, '\t');
    if i >= n {
        return None;
    }
    let stamp = &line[0..i];
    assert(stamp@ =~= line@.take(i as int));
    let rest = &line[i + 1..n];
    assert(rest@ =~= line@.skip(i + 1));
    proof {
        lemma_find(rest@, just('\t'));
    }
    let m: usize = rest.len();
    let j = find_char(rest, '\t');
    if j >= m {
        return None;
    }
    let dest = &rest[0..j];
    assert(dest@ =~= rest@.take(j as int));
    let exe = &rest[j + 1..m];
    assert(exe@ =~= rest@.skip(j + 1));
    match parse_number(stamp, u64::MAX) {
        Some(t) => Some(((string_of(exe), string_of(&lower_chars(dest))), t)),
        None => None,
    }
}

/// Read the table back. An absent file is an empty text.
pub fn load(text: &str) -> (r: Table<(String, String), u64>)
    ensures
        r.wf(),
        r@ == times_in(lines(text@)),
{
    let ls = split_lines(&chars_of(text));
    let mut out: Table<(String, String), u64> = Table::new();
    let n: usize = ls.len();
    let ghost all = lines(text@);
    proof {
        assert(all.take(0) =~= Seq::<Seq<char>>::empty());
    }
    for i in 0..n
        invariant
            n == ls@.len(),
            all == rows(ls@),
            out.wf(),
            out@ == times_in(all.take(i as int)),
    {
        proof {
            assert(all.take(i + 1).drop_last() =~= all.take(i as int));
            assert(all.take(i + 1).last() == ls@[i as int]@);
        }
        if let Some((k, t)) = parse_entry(&ls[i]) {
            out.insert(k, t);
        }
    }
    proof {
        assert(all.take(n as int) =~= all);
    }
    out
}

// ---------------------------------------------------------------------------
// The table.
// ---------------------------------------------------------------------------

/// Is this a contact worth noting?
pub open spec fn is_contact(exe: Seq<char>, dest: Seq<char>) -> bool {
    exe.len() > 0 && dest.len() > 0 && dest != "-"@
}

/// The times once a contact has been noted.
pub open spec fn touched(m: Times, exe: Seq<char>, dest: Seq<char>, now: u64) -> Times {
    if is_contact(exe, dest) {
        let kept = if m.dom().len() > MAX_SEEN {
            Map::empty()
        } else {
            m
        };
        kept.insert((exe, lowercase(dest)), now)
    } else {
        m
    }
}

/// The table once a contact has been noted.
pub open spec fn noted(v: SeenView, exe: Seq<char>, dest: Seq<char>, now: u64) -> SeenView {
    SeenView {
        times: touched(v.times, exe, dest, now),
        dirty: v.dirty || is_contact(exe, dest),
        ..v
    }
}

/// The time that has passed since `then`; none if the clock stands before it.
pub open spec fn elapsed(then: u64, now: u64) -> int {
    if now >= then {
        now - then
    } else {
        0
    }
}

/// Is it time to write the table?
pub open spec fn is_due(dirty: bool, last_flush: Option<u64>, every: u64, now: u64) -> bool {
    dirty && match last_flush {
        Some(t) => elapsed(t, now) >= every,
        None => true,
    }
}

impl Seen {
    /// No pair is stored twice.
    pub open spec fn wf(&self) -> bool {
        self.map.wf()
    }

    /// The lines that the table is written as.
    pub open spec fn table_lines(&self) -> Seq<Seq<char>> {
        Seq::new(
            self.map.slots@.len(),
            |i: int| seen_line(self.map.slots@[i].0.key(), self.map.slots@[i].1),
        )
    }

    /// Start from the table on disk, so that a restart does not reset every time
    /// to never.
    pub fn new(text: &str) -> (r: Seen)
        ensures
            r.wf(),
            r@ == (SeenView { times: times_in(lines(text@)), dirty: false, last_flush: None }),
    {
        Seen { map: load(text), dirty: false, last_flush: None }
    }

    /// Note that `exe` contacted `dest` at a given time. The destination is
    /// spelled as a rule spells it, so that the two can be joined.
    pub fn touch_at(&mut self, exe: &str, dest: &str, now: u64)
        requires
            old(self).wf(),
        ensures
            final(self).wf(),
            final(self)@ == noted(old(self)@, exe@, dest@, now),
    {
        let d = chars_of(dest);
        if exe.is_empty() || d.len() == 0 || word_is(&d, "-") {
            return ;
        }
        if self.map.len() > MAX_SEEN {
            self.map.clear();
        }
        self.map.insert((exe.to_owned(), to_lower(dest)), now);
        self.dirty = true;
    }

    /// Note that `exe` just contacted `dest`.
    pub fn touch(&mut self, exe: &str, dest: &str)
        requires
            old(self).wf(),
        ensures
            final(self).wf(),
            exists|t: u64| #[trigger]
                call_ensures(crate::seen::now, (), t) && final(self)@ == noted(
                    old(self)@,
                    exe@,
                    dest@,
                    t,
                ),
    {
        let t = now();
        self.touch_at(exe, dest, t);
    }

    /// The text to write to the table's file, if it has changed and was not
    /// written within the last `every` nanoseconds.
    ///
    /// Rate-limited because this is on the packet path.
    pub fn flush(&mut self, every: u64, now: u64) -> (r: Option<String>)
        requires
            old(self).wf(),
        ensures
            final(self).wf(),
            final(self).map == old(self).map,
            (match r {
                Some(text) => {
                    &&& is_due(old(self).dirty, old(self).last_flush, every, now)
                    &&& text@ == unlines(old(self).table_lines())
                    &&& !final(self).dirty
                    &&& final(self).last_flush == Some(now)
                },
                None => {
                    &&& !is_due(old(self).dirty, old(self).last_flush, every, now)
                    &&& final(self).dirty == old(self).dirty
                    &&& final(self).last_flush == old(self).last_flush
                },
            }),
    {
        if !self.dirty {
            return None;
        }
        if let Some(t) = self.last_flush {
            let passed: u64 = if now >= t {
                now - t
            } else {
                0
            };
            if passed < every {
                return None;
            }
        }
        self.last_flush = Some(now);
        self.dirty = false;
        let mut out: Vec<char> = Vec::new();
        let n: usize = self.map.slots.len();
        let ghost all = self.table_lines();
        proof {
            assert(all.take(0) =~= Seq::<Seq<char>>::empty());
            assert(out@ =~= unlines(all.take(0)));
        }
        for i in 0..n
            invariant
                n == self.map.slots@.len(),
                all == self.table_lines(),
                out@ == unlines(all.take(i as int)),
        {
            let slot = &self.map.slots[i];
            push_dec(&mut out, slot.1);
            out.push('\t');
            push_text(&mut out, slot.0.1.as_str());
            out.push('\t');
            push_text(&mut out, slot.0.0.as_str());
            out.push('\n');
            proof {
                let ls = all.take(i + 1);
                assert(ls.drop_last() =~= all.take(i as int));
                assert(ls.last() == all[i as int]);
                assert(out@ =~= unlines(ls.drop_last()) + ls.last() + seq!['\n']);
            }
        }
        assert(all.take(n as int) =~= all);
        Some(string_of(&out))
    }
}

// ---------------------------------------------------------------------------
// Ages.
// ---------------------------------------------------------------------------

/// An age in words.
pub open spec fn age_text(ts: Option<u64>, now: u64) -> Seq<char> {
    match ts {
        None => "never"@,
        Some(t) => if t == 0 {
            "never"@
        } else if now < t {
            "just now"@
        } else {
            let d: nat = (now - t) as nat;
            if d < 60 {
                dec(d) + "s ago"@
            } else if d < 3600 {
                dec(d / 60) + "m ago"@
            } else if d < 86400 {
                dec(d / 3600) + "h ago"@
            } else {
                dec(d / 86400) + "d ago"@
            }
        },
    }
}

/// "4m ago", "3d ago", or "never", as seen at a given time.
pub fn ago_at(ts: Option<u64>, now: u64) -> (r: String)
    ensures
        r@ == age_text(ts, now),
{
    let t: u64 = match ts {
        None => return "never".to_owned(),
        Some(t) => t,
    };
    if t == 0 {
        return "never".to_owned();
    }
    if now < t {
        return "just now".to_owned();
    }
    let d: u64 = now - t;
    let mut out: Vec<char> = Vec::new();
    if d < 60 {
        push_dec(&mut out, d);
        push_text(&mut out, "s ago");
    } else if d < 3600 {
        push_dec(&mut out, d / 60);
        push_text(&mut out, "m ago");
    } else if d < 86400 {
        push_dec(&mut out, d / 3600);
        push_text(&mut out, "h ago");
    } else {
        push_dec(&mut out, d / 86400);
        push_text(&mut out, "d ago");
    }
    assert(out@ =~= age_text(ts, now));
    string_of(&out)
}

/// "4m ago", "3d ago", or "never": short enough for a table column.
pub fn ago(ts: Option<u64>) -> (r: String)
    ensures
        exists|t: u64| #[trigger]
            call_ensures(crate::seen::now, (), t) && r@ == age_text(ts, t),
        (ts is None || ts == Some(0u64)) ==> r@ == "never"@,
{
    let n = now();
    ago_at(ts, n)
}

// ---------------------------------------------------------------------------
// What holds of every table.
// ---------------------------------------------------------------------------

/// A pair that can be written as one line: no tab or line feed where it would be
/// taken for a separator.
pub open spec fn is_written_whole(key: (Seq<char>, Seq<char>)) -> bool {
    &&& is_line(key.0)
    &&& key.0.len() > 0
    &&& !holds(key.1, just('\t'))
    &&& !holds(key.1, just('\n'))
}

/// A pair as it is read back: with the destination in lower case.
pub open spec fn reread(key: (Seq<char>, Seq<char>)) -> (Seq<char>, Seq<char>) {
    (key.0, lowercase(key.1))
}

/// A pair that survives being written and read back: it is written whole, and its
/// destination is in lower case already.
pub open spec fn is_writable(key: (Seq<char>, Seq<char>)) -> bool {
    is_written_whole(key) && reread(key) == key
}

/// A line of the table reads back as what was written, with the destination in
/// lower case.
pub proof fn lemma_line_back(key: (Seq<char>, Seq<char>), ts: u64)
    requires
        is_written_whole(key),
    ensures
        seen_entry(seen_line(key, ts)) == Some((reread(key), ts)),
        is_line(seen_line(key, ts)),
{
    let l = seen_line(key, ts);
    let d = dec(ts as nat);
    let tab = just('\t');
    lemma_number_of_dec(ts as nat, u64::MAX as nat);
    crate::number::lemma_digits_value(ts as nat, 10);
    assert forall|i: int| 0 <= i < d.len() implies !tab(#[trigger] l[i]) by {
        assert(crate::number::is_digit(d[i], 10));
        assert(l[i] == d[i]);
    }
    assert(l[d.len() as int] == '\t');
    lemma_find_is(l, tab, d.len() as int);
    assert(l.take(d.len() as int) =~= d);
    let rest = l.skip(d.len() as int + 1);
    assert(rest =~= key.1 + seq!['\t'] + key.0);
    assert forall|i: int| 0 <= i < key.1.len() implies !tab(#[trigger] rest[i]) by {
        assert(rest[i] == key.1[i]);
        assert(!tab(key.1[i]));
    }
    assert(rest[key.1.len() as int] == '\t');
    lemma_find_is(rest, tab, key.1.len() as int);
    assert(rest.take(key.1.len() as int) =~= key.1);
    assert(rest.skip(key.1.len() as int + 1) =~= key.0);
    assert forall|i: int| 0 <= i < l.len() implies !just('\n')(#[trigger] l[i]) by {
        if i < d.len() {
            assert(crate::number::is_digit(d[i], 10));
            assert(l[i] == d[i]);
        } else if i == d.len() {
        } else if i < d.len() + 1 + key.1.len() {
            assert(l[i] == key.1[i - d.len() - 1]);
            assert(!just('\n')(key.1[i - d.len() - 1]));
        } else if i == d.len() + 1 + key.1.len() {
        } else {
            assert(l[i] == key.0[i - d.len() - key.1.len() - 2]);
            assert(!just('\n')(key.0[i - d.len() - key.1.len() - 2]));
        }
    }
    assert(l.last() == key.0.last());
}

proof fn lemma_lines_back(seen: Seen, n: int)
    requires
        seen.wf(),
        0 <= n <= seen.map.slots@.len(),
        forall|i: int|
            0 <= i < seen.map.slots@.len() ==> is_writable(
                (#[trigger] seen.map.slots@[i]).0.key(),
            ),
    ensures
        ({
            let m = times_in(seen.table_lines().take(n));
            &&& forall|i: int|
                0 <= i < n ==> m.contains_key((#[trigger] seen.map.slots@[i]).0.key())
                    && m[seen.map.slots@[i].0.key()] == seen.map.slots@[i].1
            &&& forall|k: (Seq<char>, Seq<char>)| #[trigger]
                m.contains_key(k) ==> exists|i: int|
                    0 <= i < n && (#[trigger] seen.map.slots@[i]).0.key() == k
        }),
    decreases n,
{
    let ls = seen.table_lines();
    if n > 0 {
        lemma_lines_back(seen, n - 1);
        let key = seen.map.slots@[n - 1].0.key();
        let ts = seen.map.slots@[n - 1].1;
        lemma_line_back(key, ts);
        assert(ls.take(n).drop_last() =~= ls.take(n - 1));
        assert(ls.take(n).last() == seen_line(key, ts));
        let m = times_in(ls.take(n));
        assert forall|i: int| 0 <= i < n implies m.contains_key(
            (#[trigger] seen.map.slots@[i]).0.key(),
        ) && m[seen.map.slots@[i].0.key()] == seen.map.slots@[i].1 by {
            if i < n - 1 {
                assert(seen.map.keys()[i] != seen.map.keys()[n - 1]);
            }
        }
        assert forall|k: (Seq<char>, Seq<char>)| #[trigger] m.contains_key(k) implies exists|i: int|
            0 <= i < n && (#[trigger] seen.map.slots@[i]).0.key() == k by {
            if k != key {
                assert(times_in(ls.take(n - 1)).contains_key(k));
                let i = choose|i: int|
                    0 <= i < n - 1 && (#[trigger] seen.map.slots@[i]).0.key() == k;
                assert(seen.map.slots@[i].0.key() == k);
            } else {
                assert(seen.map.slots@[n - 1].0.key() == k);
            }
        }
    } else {
        assert(ls.take(0) =~= Seq::<Seq<char>>::empty());
    }
}

/// What is written is what is read back: a restart keeps every time.
pub proof fn lemma_table_survives(seen: Seen)
    requires
        seen.wf(),
        forall|i: int|
            0 <= i < seen.map.slots@.len() ==> is_writable(
                (#[trigger] seen.map.slots@[i]).0.key(),
            ),
    ensures
        times_in(lines(unlines(seen.table_lines()))) == seen.map@,
{
    let ls = seen.table_lines();
    let n = seen.map.slots@.len() as int;
    assert forall|i: int| 0 <= i < ls.len() implies is_line(#[trigger] ls[i]) by {
        lemma_line_back(seen.map.slots@[i].0.key(), seen.map.slots@[i].1);
    }
    lemma_lines_unlines(ls);
    lemma_lines_back(seen, n);
    assert(ls.take(n) =~= ls);
    let m = times_in(ls);
    assert forall|k: (Seq<char>, Seq<char>)| m.contains_key(k) <==> seen.map@.contains_key(k) by {
        if m.contains_key(k) {
            let i = choose|i: int| 0 <= i < n && (#[trigger] seen.map.slots@[i]).0.key() == k;
            seen.map.lemma_slot(i);
        }
        if seen.map@.contains_key(k) {
            let i = seen.map.lemma_key(k);
        }
    }
    assert forall|k: (Seq<char>, Seq<char>)| m.contains_key(k) implies #[trigger] m[k]
        == seen.map@[k] by {
        let i = choose|i: int| 0 <= i < n && (#[trigger] seen.map.slots@[i]).0.key() == k;
        seen.map.lemma_slot(i);
    }
    assert(m =~= seen.map@);
}

proof fn lemma_lines_reread(seen: Seen, n: int)
    requires
        0 <= n <= seen.map.slots@.len(),
        forall|i: int|
            0 <= i < seen.map.slots@.len() ==> is_written_whole(
                (#[trigger] seen.map.slots@[i]).0.key(),
            ),
    ensures
        ({
            let m = times_in(seen.table_lines().take(n));
            &&& forall|i: int|
                0 <= i < n ==> m.contains_key(reread((#[trigger] seen.map.slots@[i]).0.key()))
            &&& forall|k: (Seq<char>, Seq<char>)| #[trigger]
                m.contains_key(k) ==> exists|i: int|
                    0 <= i < n && reread((#[trigger] seen.map.slots@[i]).0.key()) == k && m[k]
                        == seen.map.slots@[i].1
        }),
    decreases n,
{
    let ls = seen.table_lines();
    if n > 0 {
        lemma_lines_reread(seen, n - 1);
        let key = seen.map.slots@[n - 1].0.key();
        let ts = seen.map.slots@[n - 1].1;
        lemma_line_back(key, ts);
        assert(ls.take(n).drop_last() =~= ls.take(n - 1));
        assert(ls.take(n).last() == seen_line(key, ts));
        let before = times_in(ls.take(n - 1));
        let m = times_in(ls.take(n));
        assert(m == before.insert(reread(key), ts));
        assert forall|k: (Seq<char>, Seq<char>)| #[trigger] m.contains_key(k) implies exists|i: int|
            0 <= i < n && reread((#[trigger] seen.map.slots@[i]).0.key()) == k && m[k]
                == seen.map.slots@[i].1 by {
            if k != reread(key) {
                assert(before.contains_key(k));
                let i = choose|i: int|
                    0 <= i < n - 1 && reread((#[trigger] seen.map.slots@[i]).0.key()) == k
                        && before[k] == seen.map.slots@[i].1;
                assert(reread(seen.map.slots@[i].0.key()) == k);
            } else {
                assert(reread(seen.map.slots@[n - 1].0.key()) == k);
            }
        }
    } else {
        assert(ls.take(0) =~= Seq::<Seq<char>>::empty());
    }
}

/// A restart never turns a time into never, whatever the names are: a pair that
/// was on record is on record afterwards, under its destination in lower case; and
/// every time that is read back is one that was written for such a pair.
pub proof fn lemma_restart_forgets_no_pair(seen: Seen)
    requires
        seen.wf(),
        forall|k: (Seq<char>, Seq<char>)| #[trigger]
            seen.map@.contains_key(k) ==> is_written_whole(k),
    ensures
        ({
            let m = times_in(lines(unlines(seen.table_lines())));
            &&& forall|k: (Seq<char>, Seq<char>)| #[trigger]
                seen.map@.contains_key(k) ==> m.contains_key(reread(k))
            &&& forall|k: (Seq<char>, Seq<char>)| #[trigger]
                m.contains_key(k) ==> exists|w: (Seq<char>, Seq<char>)| #[trigger]
                    seen.map@.contains_key(w) && reread(w) == k && m[k] == seen.map@[w]
        }),
{
    let ls = seen.table_lines();
    let n = seen.map.slots@.len() as int;
    assert forall|i: int| 0 <= i < n implies is_written_whole(
        (#[trigger] seen.map.slots@[i]).0.key(),
    ) by {
        seen.map.lemma_slot(i);
    }
    assert forall|i: int| 0 <= i < ls.len() implies is_line(#[trigger] ls[i]) by {
        lemma_line_back(seen.map.slots@[i].0.key(), seen.map.slots@[i].1);
    }
    lemma_lines_unlines(ls);
    lemma_lines_reread(seen, n);
    assert(ls.take(n) =~= ls);
    let m = times_in(ls);
    assert forall|k: (Seq<char>, Seq<char>)| #[trigger]
        seen.map@.contains_key(k) implies m.contains_key(reread(k)) by {
        let i = seen.map.lemma_key(k);
        assert(seen.map.slots@[i].0.key() == k);
    }
    assert forall|k: (Seq<char>, Seq<char>)| #[trigger] m.contains_key(k) implies exists|
        w: (Seq<char>, Seq<char>),
    | #[trigger]
        seen.map@.contains_key(w) && reread(w) == k && m[k] == seen.map@[w] by {
        let i = choose|i: int|
            0 <= i < n && reread((#[trigger] seen.map.slots@[i]).0.key()) == k && m[k]
                == seen.map.slots@[i].1;
        seen.map.lemma_slot(i);
        assert(seen.map@.contains_key(seen.map.slots@[i].0.key()));
    }
}

/// Does every pair of a table survive being written and read back?
pub open spec fn all_writable(m: Times) -> bool {
    forall|k: (Seq<char>, Seq<char>)| #[trigger] m.contains_key(k) ==> is_writable(k)
}

/// A contact that is on record in a way that survives: a binary without a line
/// break, and a destination whose lower case is settled and holds neither a tab
/// nor a line feed.
pub open spec fn is_lasting(exe: Seq<char>, dest: Seq<char>) -> bool {
    is_contact(exe, dest) ==> is_writable((exe, lowercase(dest)))
}

/// An ASCII destination without a tab or a line feed lasts, in whatever case it is
/// written: every address does, and every name that the domain name system knows.
pub proof fn lemma_ascii_lasts(exe: Seq<char>, dest: Seq<char>)
    requires
        is_line(exe),
        is_ascii_chars(dest),
        !holds(dest, just('\t')),
        !holds(dest, just('\n')),
    ensures
        is_lasting(exe, dest),
{
    lemma_ascii_lowercase_again(dest);
    let low = lowercase(dest);
    assert forall|i: int| 0 <= i < low.len() implies !just('\t')(#[trigger] low[i]) && !just('\n')(
        low[i],
    ) by {
        assert(!just('\t')(dest[i]) && !just('\n')(dest[i]));
        assert(low[i] == ascii_lower_char(dest[i]));
    }
}

/// One contact: a binary, a destination and a time.
pub ghost struct Contact {
    pub exe: Seq<char>,
    pub dest: Seq<char>,
    pub time: u64,
}

/// A table after some contacts.
pub open spec fn after_contacts(m: Times, cs: Seq<Contact>) -> Times
    decreases cs.len(),
{
    if cs.len() == 0 {
        m
    } else {
        let c = cs.last();
        touched(after_contacts(m, cs.drop_last()), c.exe, c.dest, c.time)
    }
}

/// Noting contacts keeps a table such that it survives; so does starting from what
/// was written, and from nothing.
pub proof fn lemma_contacts_last(m: Times, cs: Seq<Contact>)
    requires
        all_writable(m),
        forall|i: int| 0 <= i < cs.len() ==> is_lasting((#[trigger] cs[i]).exe, cs[i].dest),
    ensures
        all_writable(after_contacts(m, cs)),
        all_writable(times_in(lines(Seq::empty()))),
    decreases cs.len(),
{
    assert(lines(Seq::<char>::empty()) =~= Seq::<Seq<char>>::empty());
    if cs.len() > 0 {
        let h = cs.drop_last();
        assert forall|i: int| 0 <= i < h.len() implies is_lasting((#[trigger] h[i]).exe, h[i].dest) by {
            assert(h[i] == cs[i]);
        }
        lemma_contacts_last(m, h);
        let c = cs[cs.len() - 1];
        assert(is_lasting(c.exe, c.dest));
    }
}

/// A restart keeps every time: a table that was started from an empty file, or
/// from one that a table like it was written to, and was told of any contacts, is
/// read back from what it is written as.
pub proof fn lemma_restart_keeps_times(seen: Seen, m: Times, cs: Seq<Contact>)
    requires
        seen.wf(),
        all_writable(m),
        forall|i: int| 0 <= i < cs.len() ==> is_lasting((#[trigger] cs[i]).exe, cs[i].dest),
        seen.map@ == after_contacts(m, cs),
    ensures
        times_in(lines(unlines(seen.table_lines()))) == seen.map@,
        all_writable(times_in(lines(unlines(seen.table_lines())))),
{
    lemma_contacts_last(m, cs);
    assert forall|i: int| 0 <= i < seen.map.slots@.len() implies is_writable(
        (#[trigger] seen.map.slots@[i]).0.key(),
    ) by {
        seen.map.lemma_slot(i);
    }
    lemma_table_survives(seen);
}

/// A contact is on record at once, under the destination in lower case, and
/// touches no other pair unless the table is full.
pub proof fn lemma_contact_is_noted(
    m: Times,
    exe: Seq<char>,
    dest: Seq<char>,
    now: u64,
    other: (Seq<char>, Seq<char>),
)
    requires
        is_contact(exe, dest),
        other != (exe, lowercase(dest)),
    ensures
        touched(m, exe, dest, now)[(exe, lowercase(dest))] == now,
        m.dom().len() <= MAX_SEEN && m.contains_key(other) ==> touched(
            m,
            exe,
            dest,
            now,
        ).contains_key(other) && touched(m, exe, dest, now)[other] == m[other],
{
}

} // verus!
