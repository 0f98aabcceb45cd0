//! Learn host names by watching DNS answers.
//!
//! A connection shows an address, but what the application asked for is a name,
//! and only the DNS question says which. So responses are parsed as they pass,
//! and each address remembers the name it was an answer to.
//!
//! A response is hostile input. Every read stays inside it, and compression
//! pointers are followed a bounded number of times.
use crate::addr::IpAddr;
use crate::bytes::{be16, read16, read_v4, read_v6, v4_at, v6_at};
use crate::platform::{lossy, to_text_lossy};
use crate::table::Table;
use crate::text::{push_text, string_of};
use vstd::prelude::*;

verus! {

// ---------------------------------------------------------------------------
// Names.
// ---------------------------------------------------------------------------

/// How many compression pointers one name may use.
pub const MAX_JUMPS: u8 = 16;

/// Does this length byte start a compression pointer?
pub open spec fn is_pointer(len: u8) -> bool {
    len >= 192
}

/// Where a compression pointer points.
pub open spec fn pointed_at(b: Seq<u8>, off: int) -> int {
    (b[off] - 192) * 256 + b[off + 1]
}

/// A name with one more label.
pub open spec fn with_label(name: Seq<char>, label: Seq<char>) -> Seq<char> {
    if name.len() == 0 {
        label
    } else {
        name + seq!['.'] + label
    }
}

/// The name that continues `name` with the labels at `off`, following at most
/// `jumps` pointers. None if it runs off the end or needs more pointers.
pub open spec fn name_from(b: Seq<u8>, off: int, jumps: nat, name: Seq<char>) -> Option<Seq<char>>
    decreases jumps, b.len() - off,
{
    if off < 0 || off >= b.len() {
        None
    } else if is_pointer(b[off]) {
        if off + 1 < b.len() && jumps > 0 && pointed_at(b, off) < b.len() {
            name_from(b, pointed_at(b, off), (jumps - 1) as nat, name)
        } else {
            None
        }
    } else if b[off] == 0 {
        Some(name)
    } else if off + 1 + b[off] > b.len() {
        None
    } else {
        name_from(
            b,
            off + 1 + b[off],
            jumps,
            with_label(name, lossy(b.subrange(off + 1, off + 1 + b[off]))),
        )
    }
}

/// Where the bytes of a name end: past the terminating zero, or past the first
/// pointer.
pub open spec fn name_end(b: Seq<u8>, off: int) -> int
    decreases b.len() - off,
{
    if off < 0 || off >= b.len() {
        off
    } else if is_pointer(b[off]) {
        off + 2
    } else if b[off] == 0 || off + 1 + b[off] > b.len() {
        off + 1
    } else {
        name_end(b, off + 1 + b[off])
    }
}

/// The name at an offset and where its bytes end.
pub open spec fn name_at(b: Seq<u8>, start: int) -> Option<(Seq<char>, int)> {
    match name_from(b, start, MAX_JUMPS as nat, Seq::empty()) {
        Some(name) => Some((name, name_end(b, start))),
        None => None,
    }
}

/// A name that can be read ends inside the message.
pub proof fn lemma_name_end(b: Seq<u8>, off: int, jumps: nat, name: Seq<char>)
    requires
        name_from(b, off, jumps, name) is Some,
    ensures
        0 <= off < name_end(b, off) <= b.len(),
    decreases b.len() - off,
{
    if !is_pointer(b[off]) && b[off] != 0 {
        lemma_name_end(
            b,
            off + 1 + b[off],
            jumps,
            with_label(name, lossy(b.subrange(off + 1, off + 1 + b[off]))),
        );
    }
}

/// A pointer to itself is refused, however often it may be followed.
pub proof fn lemma_pointer_loop_is_refused(b: Seq<u8>, off: int, jumps: nat, name: Seq<char>)
    requires
        0 <= off < b.len(),
        is_pointer(b[off]),
        pointed_at(b, off) == off,
    ensures
        name_from(b, off, jumps, name) is None,
    decreases jumps,
{
    if jumps > 0 {
        lemma_pointer_loop_is_refused(b, off, (jumps - 1) as nat, name);
    }
}

/// Read a (possibly compressed) name: its text, and the offset just past it.
pub fn read_name(b: &[u8], start: usize) -> (r: Option<(String, usize)>)
    ensures
        (match r {
            Some((name, end)) => name_at(b@, start as int) == Some((name@, end as int)) && start
                < end <= b@.len(),
            None => name_at(b@, start as int) is None,
        }),
{
    let n: usize = b.len();
    let mut out: Vec<char> = Vec::new();
    let mut off: usize = start;
    let mut after: Option<usize> = None;
    let mut jumps: u8 = MAX_JUMPS;
    let ghost whole = name_from(b@, start as int, MAX_JUMPS as nat, Seq::empty());
    proof {
        assert(out@ =~= Seq::<char>::empty());
    }
    loop
        invariant
            n == b@.len(),
            jumps <= MAX_JUMPS,
            whole == name_from(b@, start as int, MAX_JUMPS as nat, Seq::empty()),
            name_from(b@, off as int, jumps as nat, out@) == whole,
            (match after {
                Some(a) => name_end(b@, start as int) == a,
                None => name_end(b@, start as int) == name_end(b@, off as int),
            }),
        decreases jumps, n - off,
    {
        if off >= n {
            return None;
        }
        let len: u8 = b[off];
        if len >= 192 {
            if n - off < 2 {
                return None;
            }
            let ptr: usize = (len as usize - 192) * 256 + b[off + 1] as usize;
            if after.is_none() {
                after = Some(off + 2);
            }
            if jumps == 0 || ptr >= n {
                return None;
            }
            jumps = jumps - 1;
            off = ptr;
        } else if len == 0 {
            let end: usize = match after {
                Some(a) => a,
                None => off + 1,
            };
            proof {
                lemma_name_end(b@, start as int, MAX_JUMPS as nat, Seq::empty());
            }
            return Some((string_of(&out), end));
        } else {
            if n - off - 1 < len as usize {
                return None;
            }
            let label = &b[off + 1..off + 1 + len as usize];
            assert(label@ =~= b@.subrange(off + 1, off + 1 + len));
            let text = to_text_lossy(label);
            let ghost before = out@;
            if out.len() > 0 {
                out.push('.');
            }
            push_text(&mut out, text.as_str());
            assert(out@ =~= with_label(before, lossy(label@)));
            off = off + 1 + len as usize;
        }
    }
}

// ---------------------------------------------------------------------------
// Responses.
// ---------------------------------------------------------------------------

/// Where `k` questions end that start at `off`.
pub open spec fn questions_end(b: Seq<u8>, k: nat, off: int) -> Option<int>
    decreases k,
{
    if k == 0 {
        Some(off)
    } else {
        match name_at(b, off) {
            Some((_, end)) => questions_end(b, (k - 1) as nat, end + 4),
            None => None,
        }
    }
}

/// The address a record carries: A with four bytes, AAAA with sixteen. The type
/// and the length have to agree.
pub open spec fn record_address(b: Seq<u8>, rtype: u16, rdlen: u16, at: int) -> Seq<IpAddr> {
    if rtype == 1 && rdlen == 4 {
        seq![v4_at(b, at)]
    } else if rtype == 28 && rdlen == 16 {
        seq![v6_at(b, at)]
    } else {
        Seq::empty()
    }
}

/// The addresses in `k` answer records that start at `off`. A record that is cut
/// short ends the list; a name that cannot be read spoils the whole response.
pub open spec fn answer_addresses(b: Seq<u8>, k: nat, off: int) -> Option<Seq<IpAddr>>
    decreases k,
{
    if k == 0 {
        Some(Seq::empty())
    } else {
        match name_at(b, off) {
            None => None,
            Some((_, at)) => if at + 10 > b.len() {
                Some(Seq::empty())
            } else {
                let rdlen = be16(b, at + 8);
                if at + 10 + rdlen > b.len() {
                    Some(Seq::empty())
                } else {
                    match answer_addresses(b, (k - 1) as nat, at + 10 + rdlen) {
                        Some(rest) => Some(
                            record_address(b, be16(b, at), rdlen, at + 10) + rest,
                        ),
                        None => None,
                    }
                }
            },
        }
    }
}

/// The name a response answers for, and the addresses it gives. None for a
/// query, and for a response without an address.
pub open spec fn response(b: Seq<u8>) -> Option<(Seq<char>, Seq<IpAddr>)> {
    if b.len() < 12 || b[2] < 128 || be16(b, 4) == 0 || be16(b, 6) == 0 {
        None
    } else {
        match name_at(b, 12) {
            None => None,
            Some((name, end)) => match questions_end(b, (be16(b, 4) - 1) as nat, end + 4) {
                None => None,
                Some(at) => match answer_addresses(b, be16(b, 6) as nat, at) {
                    Some(ips) => if ips.len() > 0 {
                        Some((name, ips))
                    } else {
                        None
                    },
                    None => None,
                },
            },
        }
    }
}

fn skip_questions(b: &[u8], count: u16, start: usize) -> (r: Option<usize>)
    requires
        start <= b@.len(),
    ensures
        (match r {
            Some(at) => questions_end(b@, count as nat, start + 4) == Some(at as int),
            None => match questions_end(b@, count as nat, start + 4) {
                Some(at) => at >= b@.len(),
                None => true,
            },
        }),
{
    let n: usize = b.len();
    let mut end: usize = start;
    let mut left: u16 = count;
    while left > 0
        invariant
            n == b@.len(),
            end <= n,
            questions_end(b@, left as nat, end + 4) == questions_end(b@, count as nat, start + 4),
        decreases left,
    {
        if n - end <= 4 {
            return None;
        }
        match read_name(b, end + 4) {
            Some((_, next)) => {
                end = next;
            },
            None => {
                return None;
            },
        }
        left = left - 1;
    }
    if n - end <= 4 {
        return None;
    }
    Some(end + 4)
}

fn read_answers(b: &[u8], count: u16, start: usize) -> (r: Option<Vec<IpAddr>>)
    ensures
        (match r {
            Some(v) => answer_addresses(b@, count as nat, start as int) == Some(v@),
            None => answer_addresses(b@, count as nat, start as int) is None,
        }),
{
    let n: usize = b.len();
    let mut ips: Vec<IpAddr> = Vec::new();
    let mut off: usize = start;
    let mut left: u16 = count;
    let ghost whole = answer_addresses(b@, count as nat, start as int);
    proof {
        if let Some(rest) = whole {
            assert(Seq::<IpAddr>::empty() + rest =~= rest);
        }
    }
    while left > 0
        invariant
            n == b@.len(),
            whole == answer_addresses(b@, count as nat, start as int),
            (match answer_addresses(b@, left as nat, off as int) {
                Some(rest) => whole == Some(ips@ + rest),
                None => whole is None,
            }),
        decreases left,
    {
        let at: usize = match read_name(b, off) {
            Some((_, next)) => next,
            None => return None,
        };
        if n - at < 10 {
            assert(ips@ + Seq::<IpAddr>::empty() =~= ips@);
            return Some(ips);
        }
        let rtype = read16(b, at);
        let rdlen = read16(b, at + 8);
        if n - at - 10 < rdlen as usize {
            assert(ips@ + Seq::<IpAddr>::empty() =~= ips@);
            return Some(ips);
        }
        let ghost before = ips@;
        if rtype == 1 && rdlen == 4 {
            ips.push(read_v4(b, at + 10));
        } else if rtype == 28 && rdlen == 16 {
            ips.push(read_v6(b, at + 10));
        }
        proof {
            let got = record_address(b@, rtype, rdlen, at + 10);
            assert(ips@ =~= before + got);
            if let Some(rest) = answer_addresses(b@, (left - 1) as nat, at + 10 + rdlen) {
                assert(before + (got + rest) =~= ips@ + rest);
            }
        }
        off = at + 10 + rdlen as usize;
        left = left - 1;
    }
    proof {
        assert(ips@ + Seq::<IpAddr>::empty() =~= ips@);
    }
    Some(ips)
}

/// Extract (question name, addresses) from a DNS response.
pub fn parse_response(b: &[u8]) -> (r: Option<(String, Vec<IpAddr>)>)
    ensures
        (match r {
            Some((name, ips)) => response(b@) == Some((name@, ips@)),
            None => response(b@) is None,
        }),
{
    if b.len() < 12 || b[2] < 128 {
        return None;
    }
    let qd = read16(b, 4);
    let an = read16(b, 6);
    if qd == 0 || an == 0 {
        return None;
    }
    let (name, end) = match read_name(b, 12) {
        Some(x) => x,
        None => return None,
    };
    let at: usize = match skip_questions(b, qd - 1, end) {
        Some(at) => at,
        None => return None,
    };
    match read_answers(b, an, at) {
        Some(ips) => {
            if ips.len() == 0 {
                None
            } else {
                Some((name, ips))
            }
        },
        None => None,
    }
}

// ---------------------------------------------------------------------------
// The cache.
// ---------------------------------------------------------------------------

/// How long a name is worth keeping, in nanoseconds: an hour, longer than the
/// records themselves live, since a name explains a connection even then.
pub const NAME_TTL: u64 = 3_600_000_000_000;

/// How many names are kept before old ones are dropped.
pub const MAX_NAMES: usize = 4096;

/// Addresses and the names they were answers to.
pub struct DnsCache {
    pub names: Table<IpAddr, (String, u64)>,
}

/// What the cache knows: for each address a name and when it was seen.
pub type Names = Map<IpAddr, (Seq<char>, u64)>;

impl View for DnsCache {
    type V = Names;

    open spec fn view(&self) -> Names {
        self.names@.map_values(|e: (String, u64)| (e.0@, e.1))
    }
}

/// The names after a response was seen: each of its addresses has the name.
pub open spec fn learned(m: Names, name: Seq<char>, ips: Seq<IpAddr>, now: u64) -> Names
    decreases ips.len(),
{
    if ips.len() == 0 {
        m
    } else {
        learned(m, name, ips.drop_last(), now).insert(ips.last(), (name, now))
    }
}

/// Was a name seen recently enough to keep?
pub open spec fn is_fresh(seen: u64, now: u64) -> bool {
    now - seen < NAME_TTL
}

/// The names that are recent enough to keep.
pub open spec fn fresh(m: Names, now: u64) -> Names {
    Map::new(|ip: IpAddr| m.contains_key(ip) && is_fresh(m[ip].1, now), |ip: IpAddr| m[ip])
}

/// The names once a payload has passed by.
pub open spec fn observed(m: Names, payload: Seq<u8>, now: u64) -> Names {
    let after = match response(payload) {
        Some((name, ips)) => learned(m, name, ips, now),
        None => m,
    };
    if after.dom().len() > MAX_NAMES {
        fresh(after, now)
    } else {
        after
    }
}

impl DnsCache {
    /// No address is stored twice.
    pub open spec fn wf(&self) -> bool {
        self.names.wf()
    }

    /// A cache that knows no names.
    pub fn new() -> (r: DnsCache)
        ensures
            r.wf(),
            r@ == Map::<IpAddr, (Seq<char>, u64)>::empty(),
    {
        let r = DnsCache { names: Table::new() };
        assert(r@ =~= Map::<IpAddr, (Seq<char>, u64)>::empty());
        r
    }

    /// The name an address was last an answer to.
    pub fn name_for(&self, ip: &IpAddr) -> (r: Option<&str>)
        requires
            self.wf(),
        ensures
            (match r {
                Some(n) => self@.contains_key(*ip) && self@[*ip].0 == n@,
                None => !self@.contains_key(*ip),
            }),
    {
        match self.names.get(ip) {
            Some(e) => Some(e.0.as_str()),
            None => None,
        }
    }

    /// How many addresses have a name.
    pub fn len(&self) -> (r: usize)
        requires
            self.wf(),
        ensures
            r == self@.dom().len(),
    {
        assert(self@.dom() =~= self.names@.dom());
        self.names.len()
    }

    /// Watch a payload that came from a name server; anything but a response is
    /// ignored. `now` is a reading of a monotonic clock, in nanoseconds.
    pub fn observe(&mut self, payload: &[u8], now: u64)
        requires
            old(self).wf(),
        ensures
            final(self).wf(),
            final(self)@ == observed(old(self)@, payload@, now),
    {
        if let Some((name, ips)) = parse_response(payload) {
            let n: usize = ips.len();
            let ghost start = self@;
            assert(ips@.take(0) =~= Seq::<IpAddr>::empty());
            for i in 0..n
                invariant
                    n == ips@.len(),
                    self.wf(),
                    self@ == learned(start, name@, ips@.take(i as int), now),
            {
                let ghost before = self@;
                self.names.insert(ips[i], (name.clone(), now));
                proof {
                    assert(ips@.take(i + 1).drop_last() =~= ips@.take(i as int));
                    assert(self@ =~= before.insert(ips@[i as int], (name@, now)));
                }
            }
            assert(ips@.take(n as int) =~= ips@);
        }
        if self.len() > MAX_NAMES {
            self.expire(now);
        }
    }

    /// Drop the names that are too old to keep.
    fn expire(&mut self, now: u64)
        requires
            old(self).wf(),
        ensures
            final(self).wf(),
            final(self)@ == fresh(old(self)@, now),
    {
        let ghost all = self@;
        let mut i: usize = 0;
        while i < self.names.slots.len()
            invariant
                self.wf(),
                i <= self.names.slots@.len(),
                forall|j: int|
                    0 <= j < i ==> is_fresh((#[trigger] self.names.slots@[j]).1.1, now),
                forall|ip: IpAddr| #[trigger]
                    self@.contains_key(ip) ==> all.contains_key(ip) && self@[ip] == all[ip],
                forall|ip: IpAddr|
                    all.contains_key(ip) && is_fresh(all[ip].1, now) ==> #[trigger] self@.contains_key(
                        ip,
                    ),
            decreases self.names.slots@.len() - i,
        {
            let seen: u64 = self.names.slots[i].1.1;
            if now >= seen && now - seen >= NAME_TTL {
                let ghost before = self.names;
                let ghost view = self@;
                proof {
                    before.lemma_slot(i as int);
                }
                self.names.remove_at(i);
                proof {
                    let gone = before.slots@[i as int].0;
                    assert(self@ =~= view.remove(gone));
                    assert(view.contains_key(gone) && view[gone].1 == seen);
                    assert forall|ip: IpAddr|
                        all.contains_key(ip) && is_fresh(
                            all[ip].1,
                            now,
                        ) implies #[trigger] self@.contains_key(ip) by {
                        assert(view.contains_key(ip));
                    }
                }
            } else {
                i = i + 1;
            }
        }
        proof {
            assert forall|ip: IpAddr| #[trigger] self@.contains_key(ip) implies is_fresh(
                self@[ip].1,
                now,
            ) by {
                let j = self.names.lemma_key(ip);
                assert(is_fresh(self.names.slots@[j].1.1, now));
            }
            assert(self@ =~= fresh(all, now));
        }
    }
}

// ---------------------------------------------------------------------------
// What holds of every cache.
// ---------------------------------------------------------------------------

/// An answer gives its name, and the time, to each of its addresses, and leaves every
/// other address as it was.
pub proof fn lemma_learned(m: Names, name: Seq<char>, ips: Seq<IpAddr>, now: u64, ip: IpAddr)
    ensures
        learned(m, name, ips, now).contains_key(ip) <==> m.contains_key(ip) || ips.contains(ip),
        ips.contains(ip) ==> learned(m, name, ips, now)[ip] == (name, now),
        !ips.contains(ip) && m.contains_key(ip) ==> learned(m, name, ips, now)[ip] == m[ip],
    decreases ips.len(),
{
    if ips.len() > 0 {
        let h = ips.drop_last();
        lemma_learned(m, name, h, now, ip);
        assert(ips.contains(ip) <==> h.contains(ip) || ips.last() == ip) by {
            if h.contains(ip) {
                let i = choose|i: int| 0 <= i < h.len() && h[i] == ip;
                assert(ips[i] == ip);
            }
            if ips.last() == ip {
                assert(ips[ips.len() - 1] == ip);
            }
            if ips.contains(ip) {
                let i = choose|i: int| 0 <= i < ips.len() && ips[i] == ip;
                if i < h.len() {
                    assert(h[i] == ip);
                }
            }
        }
    }
}

/// Every address of a response is known by the name that was asked for, from
/// then on, also when old names are dropped at the same time.
pub proof fn lemma_answers_are_named(m: Names, payload: Seq<u8>, now: u64, ip: IpAddr)
    requires
        response(payload) matches Some((_, ips)) && ips.contains(ip),
    ensures
        response(payload) matches Some((name, _)) && observed(m, payload, now).contains_key(ip)
            && observed(m, payload, now)[ip] == (name, now),
{
    let (name, ips) = response(payload)->0;
    lemma_learned(m, name, ips, now, ip);
}

/// No other address gets a name or another name; it can only lose one that is
/// too old.
pub proof fn lemma_other_names_stay(m: Names, payload: Seq<u8>, now: u64, ip: IpAddr)
    requires
        response(payload) matches Some((_, ips)) ==> !ips.contains(ip),
    ensures
        observed(m, payload, now).contains_key(ip) ==> m.contains_key(ip) && observed(
            m,
            payload,
            now,
        )[ip] == m[ip],
        m.contains_key(ip) && is_fresh(m[ip].1, now) ==> observed(m, payload, now).contains_key(ip),
{
    if let Some((name, ips)) = response(payload) {
        lemma_learned(m, name, ips, now, ip);
    }
}

/// A query teaches nothing.
pub proof fn lemma_queries_teach_nothing(m: Names, payload: Seq<u8>, now: u64)
    requires
        payload.len() < 12 || payload[2] < 128,
        m.dom().len() <= MAX_NAMES,
    ensures
        observed(m, payload, now) == m,
{
}

} // verus!
