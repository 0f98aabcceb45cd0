//! What is kept about contacts and about binaries.
use crate::identity::{cached_hash, printed_hash, remembered, Hashes};
use crate::number::{dec, number_of};
use crate::platform::{lossy, lowercase};
use crate::seen::{age_text, elapsed, is_due, noted, seen_entry, seen_line, times_in, SeenView};
use crate::text::{just, lemma_find_is, trim};
use vstd::prelude::*;

verus! {

// ---------------------------------------------------------------------------
// Contacts.
// ---------------------------------------------------------------------------

/// A contact of a binary with a destination is put down at its time, under the
/// destination in lower case. Without a binary or a destination, and with a
/// placeholder for one, nothing is put down.
pub proof fn lemma_contacts_are_put_down(v: SeenView, exe: Seq<char>, dest: Seq<char>, now: u64)
    ensures
        ({
            let after = noted(v, exe, dest, now);
            let counts = exe.len() > 0 && dest.len() > 0 && dest != "-"@;
            let key = (exe, lowercase(dest));
            &&& counts && v.times.dom().len() <= 4096 ==> after.times == v.times.insert(key, now)
            &&& counts && v.times.dom().len() > 4096 ==> after.times == Map::<
                (Seq<char>, Seq<char>),
                u64,
            >::empty().insert(key, now)
            &&& counts ==> after.dirty
            &&& !counts ==> after == v
            &&& after.last_flush == v.last_flush
        }),
{
}

/// The table is written exactly if it has changed and was not written for as long as
/// it should rest. A clock that was set back counts as no time passed.
pub proof fn lemma_tables_are_written(dirty: bool, last: Option<u64>, every: u64, now: u64)
    ensures
        !dirty ==> !is_due(dirty, last, every, now),
        dirty && last is None ==> is_due(dirty, last, every, now),
        dirty ==> (last matches Some(then) ==> (is_due(dirty, last, every, now) <==> if now >= then {
            now - then >= every
        } else {
            every == 0
        })),
{
}

/// The time that has passed, which is none where the clock was set back.
pub proof fn lemma_time_passes(then: u64, now: u64)
    ensures
        now >= then ==> elapsed(then, now) == now - then,
        now < then ==> elapsed(then, now) == 0,
{
}

/// A line of the table is a time, a destination and a binary with tabs between them;
/// a line that is not says nothing.
pub proof fn lemma_table_lines(
    line: Seq<char>,
    stamp: Seq<char>,
    dest: Seq<char>,
    exe: Seq<char>,
    key: (Seq<char>, Seq<char>),
    ts: u64,
)
    requires
        forall|i: int| 0 <= i < stamp.len() ==> stamp[i] != '\t',
        forall|i: int| 0 <= i < dest.len() ==> dest[i] != '\t',
    ensures
        seen_line(key, ts) == dec(ts as nat) + "\t"@ + key.1 + "\t"@ + key.0,
        seen_entry(stamp + seq!['\t'] + dest + seq!['\t'] + exe) == (match number_of(
            stamp,
            u64::MAX as nat,
        ) {
            Some(t) => Some(((exe, lowercase(dest)), t as u64)),
            None => None,
        }),
        seen_entry(stamp + seq!['\t'] + dest) is None,
        seen_entry(stamp) is None,
{
    reveal_strlit("\t");
    assert("\t"@ =~= seq!['\t']);
    let tab = just('\t');
    let whole = stamp + seq!['\t'] + dest + seq!['\t'] + exe;
    let n = stamp.len() as int;
    assert forall|j: int| 0 <= j < n implies !tab(#[trigger] whole[j]) by {
        assert(whole[j] == stamp[j]);
    }
    lemma_find_is(whole, tab, n);
    assert(whole.take(n) =~= stamp);
    let rest = whole.skip(n + 1);
    assert(rest =~= dest + seq!['\t'] + exe);
    assert forall|j: int| 0 <= j < dest.len() implies !tab(#[trigger] rest[j]) by {
        assert(rest[j] == dest[j]);
    }
    lemma_find_is(rest, tab, dest.len() as int);
    assert(rest.take(dest.len() as int) =~= dest);
    assert(rest.skip(dest.len() as int + 1) =~= exe);
    let short = stamp + seq!['\t'] + dest;
    assert forall|j: int| 0 <= j < n implies !tab(#[trigger] short[j]) by {
        assert(short[j] == stamp[j]);
    }
    lemma_find_is(short, tab, n);
    assert(short.skip(n + 1) =~= dest);
    lemma_find_is(dest, tab, dest.len() as int);
    lemma_find_is(stamp, tab, n);
}

/// The last line about a pair counts, and a pair that no line is about has no time.
pub proof fn lemma_last_time_counts(
    ls: Seq<Seq<char>>,
    i: int,
    key: (Seq<char>, Seq<char>),
)
    ensures
        0 <= i < ls.len() && (forall|j: int|
            i < j < ls.len() ==> !(seen_entry(#[trigger] ls[j]) matches Some((k, _)) && k == key))
            ==> (seen_entry(ls[i]) matches Some((k, t)) ==> (k == key ==> times_in(
            ls,
        ).contains_key(key) && times_in(ls)[key] == t)),
        (forall|j: int|
            0 <= j < ls.len() ==> !(seen_entry(#[trigger] ls[j]) matches Some((k, _)) && k == key))
            ==> !times_in(ls).contains_key(key),
    decreases ls.len(),
{
    if ls.len() > 0 {
        let h = ls.drop_last();
        let n = h.len() as int;
        lemma_last_time_counts(h, i, key);
        assert forall|j: int| 0 <= j < n implies #[trigger] h[j] == ls[j] by {}
        assert(ls.last() == ls[n]);
    }
}

/// An age in words: never, where there is no time; in seconds up to a minute, in
/// minutes up to an hour, in hours up to a day, and in days from then on. A time
/// that is yet to come is just now.
pub proof fn lemma_ages(t: u64, now: u64)
    ensures
        age_text(None, now) == "never"@,
        age_text(Some(0), now) == "never"@,
        t > 0 && now < t ==> age_text(Some(t), now) == "just now"@,
        t > 0 && 0 <= now - t < 60 ==> age_text(Some(t), now) == dec((now - t) as nat) + "s ago"@,
        t > 0 && 60 <= now - t < 3600 ==> age_text(Some(t), now) == dec(((now - t) / 60) as nat)
            + "m ago"@,
        t > 0 && 3600 <= now - t < 86400 ==> age_text(Some(t), now) == dec(
            ((now - t) / 3600) as nat,
        ) + "h ago"@,
        t > 0 && 86400 <= now - t ==> age_text(Some(t), now) == dec(((now - t) / 86400) as nat)
            + "d ago"@,
{
}

// ---------------------------------------------------------------------------
// Hashes.
// ---------------------------------------------------------------------------

/// A hash on record counts exactly while the file has the time and the size it had.
pub proof fn lemma_hashes_count(m: Hashes, path: Seq<char>, mtime: u64, size: u64)
    ensures
        m.contains_key(path) && m[path].0 == mtime && m[path].1 == size ==> cached_hash(
            m,
            path,
            mtime,
            size,
        ) == Some(m[path].2),
        !m.contains_key(path) || m[path].0 != mtime || m[path].1 != size ==> cached_hash(
            m,
            path,
            mtime,
            size,
        ) is None,
{
}

/// What the hashing program printed is the hash, without the white space around it,
/// unless nothing is left.
pub proof fn lemma_hashes_are_printed(b: Seq<u8>)
    ensures
        printed_hash(None) is None,
        trim(lossy(b)).len() > 0 ==> printed_hash(Some(b)) == Some(trim(lossy(b))),
        trim(lossy(b)).len() == 0 ==> printed_hash(Some(b)) is None,
{
}

/// A new hash is put on record for its file, and no other file loses its own unless
/// more than 2048 are kept; a hash on record that counts is kept.
pub proof fn lemma_hashes_are_kept(
    m: Hashes,
    path: Seq<char>,
    mtime: u64,
    size: u64,
    output: Option<Seq<u8>>,
    other: Seq<char>,
)
    ensures
        ({
            let after = remembered(m, path, mtime, size, output);
            let hit = m.contains_key(path) && m[path].0 == mtime && m[path].1 == size;
            &&& hit ==> after == m
            &&& !hit && printed_hash(output) is None ==> after == m
            &&& !hit ==> (printed_hash(output) matches Some(h) ==> after.contains_key(path)
                && after[path] == (mtime, size, h))
            &&& other != path && m.dom().len() <= 2048 ==> (after.contains_key(other)
                <==> m.contains_key(other))
            &&& other != path && after.contains_key(other) ==> m.contains_key(other)
                && after[other] == m[other]
        }),
{
}

} // verus!
