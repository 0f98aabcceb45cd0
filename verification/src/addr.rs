//! Network addresses and the way they are written.
//!
//! An IPv4 address is four decimal octets separated by dots. An IPv6 address is
//! eight hexadecimal groups separated by colons, where one run of zero groups
//! may be written `::` and the last two groups may be written as an IPv4
//! address. Printing follows the usual canonical form: small letters, no
//! leading zeros, and the longest run of two or more zero groups shortened.
use crate::number::{
    all_digits, dec, digit_of, digit_value, digits, is_digit, lemma_dec_len, lemma_digits_value,
    lemma_hex_len, push_dec, push_digits, value,
};
use crate::text::{
    chars_of, holds, just, lemma_split_covers, lemma_split_first, lemma_split_one, rows, split,
    split_chars, string_of,
};
use vstd::prelude::*;

verus! {

/// An address of either family: four octets, or eight 16-bit groups.
#[derive(Debug, Clone, Copy, PartialEq, Eq, Structural, Hash)]
pub enum IpAddr {
    V4(u8, u8, u8, u8),
    V6(u16, u16, u16, u16, u16, u16, u16, u16),
}

// ---------------------------------------------------------------------------
// Reading.
// ---------------------------------------------------------------------------

/// One octet of a dotted address: up to three digits, no leading zero, at most
/// 255.
pub open spec fn octet_of(p: Seq<char>) -> Option<u8> {
    if 1 <= p.len() <= 3 && all_digits(p, 10) && (p.len() > 1 ==> p[0] != '0') && value(p, 10)
        <= 255 {
        Some(value(p, 10) as u8)
    } else {
        None
    }
}

/// The IPv4 address a text denotes, if it denotes one.
pub open spec fn v4_of(s: Seq<char>) -> Option<IpAddr> {
    let p = split(s, '.');
    if p.len() == 4 && octet_of(p[0]) is Some && octet_of(p[1]) is Some && octet_of(p[2]) is Some
        && octet_of(p[3]) is Some {
        Some(
            IpAddr::V4(octet_of(p[0])->0, octet_of(p[1])->0, octet_of(p[2])->0, octet_of(p[3])->0),
        )
    } else {
        None
    }
}

/// One group: up to four hexadecimal digits.
pub open spec fn group_of(p: Seq<char>) -> Option<u16> {
    if 1 <= p.len() <= 4 && all_digits(p, 16) {
        Some(value(p, 16) as u16)
    } else {
        None
    }
}

/// Are all of these texts groups?
pub open spec fn all_groups(p: Seq<Seq<char>>) -> bool {
    forall|i: int| 0 <= i < p.len() ==> group_of(#[trigger] p[i]) is Some
}

/// The groups that the texts denote.
pub open spec fn groups_of(p: Seq<Seq<char>>) -> Seq<u16> {
    Seq::new(p.len(), |i: int| group_of(p[i])->0)
}

/// The two groups that an IPv4 address stands for.
pub open spec fn embedded(a: IpAddr) -> Seq<u16> {
    match a {
        IpAddr::V4(a, b, c, d) => seq![(a * 256 + b) as u16, (c * 256 + d) as u16],
        _ => Seq::empty(),
    }
}

/// A colon-separated run of groups; the last piece may be an IPv4 address when
/// `tail` says so. The empty text is a run of no groups.
pub open spec fn run_of(s: Seq<char>, tail: bool) -> Option<Seq<u16>> {
    let p = split(s, ':');
    if s.len() == 0 {
        Some(Seq::empty())
    } else if all_groups(p) {
        Some(groups_of(p))
    } else if tail && all_groups(p.drop_last()) && v4_of(p.last()) is Some {
        Some(groups_of(p.drop_last()) + embedded(v4_of(p.last())->0))
    } else {
        None
    }
}

/// The position of the first `::`, or the length when there is none.
pub open spec fn gap(s: Seq<char>) -> int
    decreases s.len(),
{
    if s.len() < 2 {
        s.len() as int
    } else if s[0] == ':' && s[1] == ':' {
        0
    } else {
        1 + gap(s.skip(1))
    }
}

/// `n` groups of zero.
pub open spec fn zeros(n: int) -> Seq<u16> {
    Seq::new(n as nat, |i: int| 0u16)
}

/// The IPv6 address with the given eight groups.
pub open spec fn of_groups(g: Seq<u16>) -> IpAddr {
    IpAddr::V6(g[0], g[1], g[2], g[3], g[4], g[5], g[6], g[7])
}

/// The eight groups of an IPv6 address.
pub open spec fn groups(a: IpAddr) -> Seq<u16> {
    match a {
        IpAddr::V6(a, b, c, d, e, f, g, h) => seq![a, b, c, d, e, f, g, h],
        _ => Seq::empty(),
    }
}

/// The IPv6 address a text denotes, if it denotes one. `::` stands for at
/// least one group of zero.
pub open spec fn v6_of(s: Seq<char>) -> Option<IpAddr> {
    let i = gap(s);
    if i < s.len() {
        let head = run_of(s.take(i), false);
        let tail = run_of(s.skip(i + 2), true);
        if head is Some && tail is Some && head->0.len() + tail->0.len() <= 7 {
            Some(of_groups(head->0 + zeros(8 - head->0.len() - tail->0.len()) + tail->0))
        } else {
            None
        }
    } else {
        let all = run_of(s, true);
        if all is Some && all->0.len() == 8 {
            Some(of_groups(all->0))
        } else {
            None
        }
    }
}

/// The address a text denotes, if it denotes one.
pub open spec fn ip_of(s: Seq<char>) -> Option<IpAddr> {
    if v4_of(s) is Some {
        v4_of(s)
    } else {
        v6_of(s)
    }
}

/// Does a text denote an IPv6 address?
pub open spec fn is_v6(s: Seq<char>) -> bool {
    v6_of(s) is Some
}

/// Read one octet.
fn parse_octet(p: &[char]) -> (r: Option<u8>)
    ensures
        r == octet_of(p@),
{
    let n: usize = p.len();
    if n < 1 || n > 3 || (n > 1 && p[0] == '0') {
        return None;
    }
    let mut acc: u32 = 0;
    let mut i: usize = 0;
    assert(p@.take(0) =~= Seq::<char>::empty());
    while i < n
        invariant
            n == p@.len(),
            1 <= n <= 3,
            i <= n,
            acc == value(p@.take(i as int), 10),
            i == 0 ==> acc == 0,
            i == 1 ==> acc < 10,
            i == 2 ==> acc < 100,
            i == 3 ==> acc < 1000,
            forall|j: int| 0 <= j < i ==> is_digit(#[trigger] p@[j], 10),
        decreases n - i,
    {
        match digit_of(p[i]) {
            Some(d) if d < 10 => {
                assert(p@.take(i + 1).drop_last() =~= p@.take(i as int));
                assert(p@.take(i + 1).last() == p@[i as int]);
                acc = acc * 10 + d as u32;
            },
            _ => {
                assert(!is_digit(p@[i as int], 10));
                return None;
            },
        }
        i += 1;
    }
    assert(p@.take(n as int) =~= p@);
    if acc <= 255 {
        Some(acc as u8)
    } else {
        None
    }
}

/// Read one group.
fn parse_group(p: &[char]) -> (r: Option<u16>)
    ensures
        r == group_of(p@),
{
    let n: usize = p.len();
    if n < 1 || n > 4 {
        return None;
    }
    let mut acc: u32 = 0;
    let mut i: usize = 0;
    assert(p@.take(0) =~= Seq::<char>::empty());
    while i < n
        invariant
            n == p@.len(),
            1 <= n <= 4,
            i <= n,
            acc == value(p@.take(i as int), 16),
            i == 0 ==> acc == 0,
            i == 1 ==> acc < 0x10,
            i == 2 ==> acc < 0x100,
            i == 3 ==> acc < 0x1000,
            i == 4 ==> acc < 0x1_0000,
            forall|j: int| 0 <= j < i ==> is_digit(#[trigger] p@[j], 16),
        decreases n - i,
    {
        match digit_of(p[i]) {
            Some(d) => {
                assert(p@.take(i + 1).drop_last() =~= p@.take(i as int));
                assert(p@.take(i + 1).last() == p@[i as int]);
                acc = acc * 16 + d as u32;
            },
            None => {
                assert(!is_digit(p@[i as int], 16));
                return None;
            },
        }
        i += 1;
    }
    assert(p@.take(n as int) =~= p@);
    Some(acc as u16)
}

/// Read an IPv4 address.
pub fn parse_v4(s: &[char]) -> (r: Option<IpAddr>)
    ensures
        r == v4_of(s@),
{
    let p = split_chars(s, '.');
    assert(rows(p@).len() == p@.len());
    if p.len() != 4 {
        return None;
    }
    assert(rows(p@)[0] == p@[0]@ && rows(p@)[1] == p@[1]@ && rows(p@)[2] == p@[2]@ && rows(p@)[3]
        == p@[3]@);
    let a = parse_octet(&p[0]);
    let b = parse_octet(&p[1]);
    let c = parse_octet(&p[2]);
    let d = parse_octet(&p[3]);
    match (a, b, c, d) {
        (Some(a), Some(b), Some(c), Some(d)) => Some(IpAddr::V4(a, b, c, d)),
        _ => None,
    }
}

/// Read a run of groups.
fn parse_run(s: &[char], tail: bool) -> (r: Option<Vec<u16>>)
    ensures
        r is Some <==> run_of(s@, tail) is Some,
        r is Some ==> r->0@ == run_of(s@, tail)->0,
{
    let mut out: Vec<u16> = Vec::new();
    if s.len() == 0 {
        return Some(out);
    }
    let p = split_chars(s, ':');
    let ghost ps = split(s@, ':');
    assert(rows(p@).len() == p@.len());
    let n: usize = p.len();
    let mut i: usize = 0;
    while i < n
        invariant
            n == p@.len(),
            i <= n,
            s@.len() > 0,
            ps == split(s@, ':'),
            rows(p@) == ps,
            out@.len() == i,
            forall|j: int|
                0 <= j < i ==> group_of(#[trigger] ps[j]) is Some && out@[j] == group_of(ps[j])->0,
        decreases n - i,
    {
        assert(p@[i as int]@ == ps[i as int]);
        match parse_group(&p[i]) {
            Some(g) => {
                out.push(g);
            },
            None => {
                assert(!all_groups(ps));
                if !tail || i + 1 != n {
                    assert(i + 1 != n ==> !all_groups(ps.drop_last())) by {
                        if i + 1 != n {
                            assert(ps.drop_last()[i as int] == ps[i as int]);
                        }
                    }
                    return None;
                }
                assert(ps.last() == ps[i as int]);
                return match parse_v4(&p[i]) {
                    Some(IpAddr::V4(a, b, c, d)) => {
                        let ghost before = out@;
                        assert(before =~= groups_of(ps.drop_last()));
                        out.push((a as u16) * 256 + b as u16);
                        out.push((c as u16) * 256 + d as u16);
                        assert(out@ =~= groups_of(ps.drop_last()) + embedded(
                            IpAddr::V4(a, b, c, d),
                        ));
                        Some(out)
                    },
                    _ => None,
                };
            },
        }
        i += 1;
    }
    assert(out@ =~= groups_of(ps));
    assert(all_groups(ps));
    Some(out)
}

/// Find the first `::`.
fn find_gap(s: &[char]) -> (r: usize)
    ensures
        r == gap(s@),
        r <= s@.len(),
        r < s@.len() ==> r + 2 <= s@.len(),
{
    let n: usize = s.len();
    let mut i: usize = 0;
    assert(s@.skip(0) =~= s@);
    while i < n && n - i >= 2
        invariant
            n == s@.len(),
            i <= n,
            i + gap(s@.skip(i as int)) == gap(s@),
        decreases n - i,
    {
        let ghost t = s@.skip(i as int);
        assert(t[0] == s@[i as int] && t[1] == s@[i + 1]);
        if s[i] == ':' && s[i + 1] == ':' {
            return i;
        }
        assert(t.skip(1) =~= s@.skip(i + 1));
        i += 1;
    }
    n
}

/// The IPv6 address with the given eight groups.
fn from_groups(g: &[u16]) -> (r: IpAddr)
    requires
        g@.len() == 8,
    ensures
        r == of_groups(g@),
{
    IpAddr::V6(g[0], g[1], g[2], g[3], g[4], g[5], g[6], g[7])
}

/// Read an IPv6 address.
pub fn parse_v6(s: &[char]) -> (r: Option<IpAddr>)
    ensures
        r == v6_of(s@),
{
    let n: usize = s.len();
    let i = find_gap(s);
    if i < n {
        let hs = &s[0..i];
        let ts = &s[i + 2..n];
        assert(hs@ =~= s@.take(i as int));
        assert(ts@ =~= s@.skip(i + 2));
        let head = match parse_run(hs, false) {
            Some(v) => v,
            None => return None,
        };
        let tail = match parse_run(ts, true) {
            Some(v) => v,
            None => return None,
        };
        if head.len() > 7 || tail.len() > 7 || head.len() + tail.len() > 7 {
            return None;
        }
        let mut all: Vec<u16> = Vec::new();
        let mut k: usize = 0;
        while k < head.len()
            invariant
                k <= head@.len(),
                all@ == head@.take(k as int),
            decreases head@.len() - k,
        {
            all.push(head[k]);
            assert(head@.take(k + 1) =~= head@.take(k as int).push(head@[k as int]));
            k += 1;
        }
        assert(head@.take(k as int) =~= head@);
        let fill: usize = 8 - head.len() - tail.len();
        let mut k: usize = 0;
        assert(all@ =~= head@ + zeros(0));
        while k < fill
            invariant
                k <= fill,
                all@ == head@ + zeros(k as int),
            decreases fill - k,
        {
            all.push(0);
            assert(head@ + zeros(k + 1) =~= (head@ + zeros(k as int)).push(0));
            k += 1;
        }
        let ghost front = all@;
        let mut k: usize = 0;
        assert(all@ =~= front + tail@.take(0));
        while k < tail.len()
            invariant
                k <= tail@.len(),
                all@ == front + tail@.take(k as int),
            decreases tail@.len() - k,
        {
            all.push(tail[k]);
            assert(front + tail@.take(k + 1) =~= (front + tail@.take(k as int)).push(
                tail@[k as int],
            ));
            k += 1;
        }
        assert(tail@.take(k as int) =~= tail@);
        Some(from_groups(&all))
    } else {
        match parse_run(s, true) {
            Some(all) => {
                if all.len() == 8 {
                    Some(from_groups(&all))
                } else {
                    None
                }
            },
            None => None,
        }
    }
}

/// Read an address of either family.
pub fn parse_ip(s: &[char]) -> (r: Option<IpAddr>)
    ensures
        r == ip_of(s@),
{
    match parse_v4(s) {
        Some(a) => Some(a),
        None => parse_v6(s),
    }
}

// ---------------------------------------------------------------------------
// Writing.
// ---------------------------------------------------------------------------

/// Four octets, dotted.
pub open spec fn v4_text(a: u8, b: u8, c: u8, d: u8) -> Seq<char> {
    dec(a as nat) + seq!['.'] + (dec(b as nat) + seq!['.'] + (dec(c as nat) + seq!['.'] + dec(
        d as nat,
    )))
}

/// A group in hexadecimal, without leading zeros.
pub open spec fn hex(g: u16) -> Seq<char> {
    digits(g as nat, 16)
}

/// Groups separated by colons.
pub open spec fn join_groups(g: Seq<u16>) -> Seq<char>
    decreases g.len(),
{
    if g.len() == 0 {
        Seq::empty()
    } else if g.len() == 1 {
        hex(g[0])
    } else {
        hex(g[0]) + seq![':'] + join_groups(g.skip(1))
    }
}

/// How many zero groups follow each other from position `i` on.
pub open spec fn zero_run(g: Seq<u16>, i: int) -> int
    decreases g.len() - i,
{
    if 0 <= i < g.len() && g[i] == 0 {
        1 + zero_run(g, i + 1)
    } else {
        0
    }
}

/// The start and length of the longest run of zero groups that starts before
/// position `n`; the leftmost one when several are equally long.
pub open spec fn longest(g: Seq<u16>, n: int) -> (int, int)
    decreases n,
{
    if n <= 0 {
        (0, 0)
    } else {
        let best = longest(g, n - 1);
        if zero_run(g, n - 1) > best.1 {
            (n - 1, zero_run(g, n - 1))
        } else {
            best
        }
    }
}

/// Is this an IPv4 address in IPv6 clothing, `::ffff:a.b.c.d`?
pub open spec fn is_mapped(g: Seq<u16>) -> bool {
    g[0] == 0 && g[1] == 0 && g[2] == 0 && g[3] == 0 && g[4] == 0 && g[5] == 0xffff
}

/// Eight groups in canonical form.
pub open spec fn v6_text(g: Seq<u16>) -> Seq<char> {
    let run = longest(g, 8);
    if is_mapped(g) {
        seq![':', ':'] + (hex(0xffff) + seq![':'] + v4_text(
            (g[6] / 256) as u8,
            (g[6] % 256) as u8,
            (g[7] / 256) as u8,
            (g[7] % 256) as u8,
        ))
    } else if run.1 > 1 {
        join_groups(g.take(run.0)) + seq![':', ':'] + join_groups(g.skip(run.0 + run.1))
    } else {
        join_groups(g)
    }
}

/// An address in canonical form.
pub open spec fn ip_text(a: IpAddr) -> Seq<char> {
    match a {
        IpAddr::V4(a, b, c, d) => v4_text(a, b, c, d),
        IpAddr::V6(..) => v6_text(groups(a)),
    }
}

/// A run of zero groups holds only zeros and stays inside the address.
pub proof fn lemma_zero_run(g: Seq<u16>, i: int)
    requires
        0 <= i <= g.len(),
    ensures
        0 <= zero_run(g, i) <= g.len() - i,
        forall|j: int| i <= j < i + zero_run(g, i) ==> #[trigger] g[j] == 0,
    decreases g.len() - i,
{
    if i < g.len() && g[i] == 0 {
        lemma_zero_run(g, i + 1);
    }
}

/// The longest run holds only zeros and stays inside the address.
pub proof fn lemma_longest(g: Seq<u16>, n: int)
    requires
        0 <= n <= g.len(),
    ensures
        0 <= longest(g, n).0,
        0 <= longest(g, n).1,
        longest(g, n).0 + longest(g, n).1 <= g.len(),
        forall|j: int|
            longest(g, n).0 <= j < longest(g, n).0 + longest(g, n).1 ==> #[trigger] g[j] == 0,
    decreases n,
{
    if n > 0 {
        lemma_longest(g, n - 1);
        lemma_zero_run(g, n - 1);
    }
}

/// Append an IPv4 address.
fn push_v4(out: &mut Vec<char>, a: u8, b: u8, c: u8, d: u8)
    ensures
        final(out)@ == old(out)@ + v4_text(a, b, c, d),
{
    push_dec(out, a as u64);
    out.push('.');
    push_dec(out, b as u64);
    out.push('.');
    push_dec(out, c as u64);
    out.push('.');
    push_dec(out, d as u64);
    assert(out@ =~= old(out)@ + v4_text(a, b, c, d));
}

/// Append colon-separated groups.
fn push_groups(out: &mut Vec<char>, g: &[u16])
    ensures
        final(out)@ == old(out)@ + join_groups(g@),
    decreases g@.len(),
{
    let n: usize = g.len();
    if n == 0 {
        assert(out@ =~= old(out)@ + join_groups(g@));
        return;
    }
    push_digits(out, g[0] as u64, 16);
    if n > 1 {
        out.push(':');
        let rest = &g[1..n];
        assert(rest@ =~= g@.skip(1));
        push_groups(out, rest);
    }
    assert(out@ =~= old(out)@ + join_groups(g@));
}

/// Count the zero groups from position `i` on.
fn count_zeros(g: &[u16], i: usize) -> (r: usize)
    requires
        i <= g@.len(),
    ensures
        r == zero_run(g@, i as int),
    decreases g@.len() - i,
{
    proof {
        lemma_zero_run(g@, i as int);
    }
    if i < g.len() && g[i] == 0 {
        1 + count_zeros(g, i + 1)
    } else {
        0
    }
}

/// Append an address in canonical form.
pub fn push_ip(out: &mut Vec<char>, a: &IpAddr)
    ensures
        final(out)@ == old(out)@ + ip_text(*a),
{
    match *a {
        IpAddr::V4(a, b, c, d) => push_v4(out, a, b, c, d),
        IpAddr::V6(a, b, c, d, e, f, g, h) => {
            let all: [u16; 8] = [a, b, c, d, e, f, g, h];
            let ghost gs = groups(IpAddr::V6(a, b, c, d, e, f, g, h));
            assert(all@ =~= gs);
            if a == 0 && b == 0 && c == 0 && d == 0 && e == 0 && f == 0xffff {
                out.push(':');
                out.push(':');
                push_digits(out, 0xffff, 16);
                out.push(':');
                push_v4(out, (g / 256) as u8, (g % 256) as u8, (h / 256) as u8, (h % 256) as u8);
                assert(out@ =~= old(out)@ + v6_text(gs));
                return;
            }
            let s = all.as_slice();
            let mut start: usize = 0;
            let mut len: usize = 0;
            let mut i: usize = 0;
            while i < 8
                invariant
                    s@ == gs,
                    gs.len() == 8,
                    i <= 8,
                    (start as int, len as int) == longest(gs, i as int),
                decreases 8 - i,
            {
                let k = count_zeros(s, i);
                if k > len {
                    start = i;
                    len = k;
                }
                i += 1;
            }
            proof {
                lemma_longest(gs, 8);
            }
            if len > 1 {
                let head = &s[0..start];
                let tail = &s[start + len..8];
                assert(head@ =~= gs.take(start as int));
                assert(tail@ =~= gs.skip(start + len));
                push_groups(out, head);
                out.push(':');
                out.push(':');
                push_groups(out, tail);
            } else {
                push_groups(out, s);
            }
            assert(out@ =~= old(out)@ + v6_text(gs));
        },
    }
}

impl IpAddr {
    /// The address in canonical form.
    pub fn to_text(&self) -> (r: String)
        ensures
            r@ == ip_text(*self),
    {
        let mut out: Vec<char> = Vec::new();
        push_ip(&mut out, self);
        assert(out@ =~= ip_text(*self));
        string_of(&out)
    }

    /// The address a string denotes, if it denotes one.
    pub fn parse(s: &str) -> (r: Option<IpAddr>)
        ensures
            r == ip_of(s@),
    {
        let c = chars_of(s);
        parse_ip(&c)
    }

    /// Is this the wildcard address of its family?
    pub open spec fn unspecified(&self) -> bool {
        *self == IpAddr::V4(0, 0, 0, 0) || *self == IpAddr::V6(0, 0, 0, 0, 0, 0, 0, 0)
    }

    /// Is this the wildcard address of its family?
    pub fn is_unspecified(&self) -> (r: bool)
        ensures
            r == self.unspecified(),
    {
        *self == IpAddr::V4(0, 0, 0, 0) || *self == IpAddr::V6(0, 0, 0, 0, 0, 0, 0, 0)
    }
}

// ---------------------------------------------------------------------------
// Reading back what was written.
// ---------------------------------------------------------------------------

/// Digits contain no separator.
proof fn lemma_digits_hold_no(n: nat, radix: nat, c: char)
    requires
        2 <= radix <= 16,
        digit_value(c) is None,
    ensures
        !holds(digits(n, radix), just(c)),
{
    lemma_digits_value(n, radix);
}

/// A written octet reads back.
proof fn lemma_octet_back(a: u8)
    ensures
        octet_of(dec(a as nat)) == Some(a),
{
    lemma_digits_value(a as nat, 10);
    lemma_dec_len(a as nat);
}

/// A written group reads back.
proof fn lemma_group_back(g: u16)
    ensures
        group_of(hex(g)) == Some(g),
{
    lemma_digits_value(g as nat, 16);
    lemma_hex_len(g as nat);
}

/// A written IPv4 address reads back.
proof fn lemma_v4_back(a: u8, b: u8, c: u8, d: u8)
    ensures
        v4_of(v4_text(a, b, c, d)) == Some(IpAddr::V4(a, b, c, d)),
        !holds(v4_text(a, b, c, d), just(':')),
        group_of(v4_text(a, b, c, d)) is None,
{
    let (x, y, z, w) = (dec(a as nat), dec(b as nat), dec(c as nat), dec(d as nat));
    lemma_digits_hold_no(a as nat, 10, '.');
    lemma_digits_hold_no(b as nat, 10, '.');
    lemma_digits_hold_no(c as nat, 10, '.');
    lemma_digits_hold_no(d as nat, 10, '.');
    let dot = seq!['.'];
    lemma_split_one(w, '.');
    lemma_split_first(z, '.', w);
    lemma_split_first(y, '.', z + dot + w);
    lemma_split_first(x, '.', y + dot + (z + dot + w));
    assert(split(v4_text(a, b, c, d), '.') =~= seq![x, y, z, w]);
    lemma_octet_back(a);
    lemma_octet_back(b);
    lemma_octet_back(c);
    lemma_octet_back(d);
    lemma_digits_hold_no(a as nat, 10, ':');
    lemma_digits_hold_no(b as nat, 10, ':');
    lemma_digits_hold_no(c as nat, 10, ':');
    lemma_digits_hold_no(d as nat, 10, ':');
    let s = v4_text(a, b, c, d);
    assert forall|i: int| 0 <= i < s.len() implies !just(':')(#[trigger] s[i]) by {
        let (p, q, r) = (x.len() as int, y.len() as int, z.len() as int);
        if i < p {
            assert(s[i] == x[i]);
        } else if i == p {
        } else if i < p + 1 + q {
            assert(s[i] == y[i - p - 1]);
        } else if i == p + 1 + q {
        } else if i < p + q + r + 2 {
            assert(s[i] == z[i - p - q - 2]);
        } else if i == p + q + r + 2 {
        } else {
            assert(s[i] == w[i - p - q - r - 3]);
        }
    }
    assert(s[x.len() as int] == '.');
}

/// Joined groups split back into the written groups.
proof fn lemma_join_split(g: Seq<u16>)
    requires
        g.len() > 0,
    ensures
        split(join_groups(g), ':') == Seq::new(g.len(), |i: int| hex(g[i])),
        join_groups(g).len() > 0,
        join_groups(g)[0] != ':',
        join_groups(g).last() != ':',
        forall|i: int|
            0 <= i < join_groups(g).len() - 1 ==> !(#[trigger] join_groups(g)[i] == ':'
                && join_groups(g)[i + 1] == ':'),
    decreases g.len(),
{
    let h = hex(g[0]);
    lemma_digits_hold_no(g[0] as nat, 16, ':');
    lemma_digits_value(g[0] as nat, 16);
    let want = Seq::new(g.len(), |i: int| hex(g[i]));
    let s = join_groups(g);
    assert forall|i: int| 0 <= i < h.len() implies h[i] != ':' by {
        assert(!just(':')(h[i]));
    }
    if g.len() == 1 {
        lemma_split_one(h, ':');
        assert(want =~= seq![h]);
        assert(h.last() == h[h.len() - 1]);
    } else {
        let t = g.skip(1);
        let r = join_groups(t);
        lemma_join_split(t);
        lemma_split_first(h, ':', r);
        assert(want =~= seq![h] + Seq::new(t.len(), |i: int| hex(t[i])));
        assert(s[0] == h[0]);
        assert(s.last() == r.last());
        assert forall|i: int| 0 <= i < s.len() - 1 implies !(#[trigger] s[i] == ':' && s[i + 1]
            == ':') by {
            if i < h.len() {
                assert(s[i] == h[i]);
            } else if i == h.len() {
                assert(s[i + 1] == r[0]);
            } else {
                assert(s[i] == r[i - h.len() - 1]);
                assert(s[i + 1] == r[i - h.len() - 1 + 1]);
            }
        }
    }
}

/// Joined groups read back as the same run.
proof fn lemma_run_back(g: Seq<u16>, tail: bool)
    ensures
        run_of(join_groups(g), tail) == Some(g),
{
    if g.len() > 0 {
        lemma_join_split(g);
        let p = split(join_groups(g), ':');
        assert forall|i: int| 0 <= i < p.len() implies group_of(#[trigger] p[i]) == Some(g[i]) by {
            lemma_group_back(g[i]);
        }
        assert(all_groups(p));
        assert(groups_of(p) =~= g);
    } else {
        assert(g =~= Seq::<u16>::empty());
    }
}

/// Text without adjacent colons has no gap.
pub proof fn lemma_no_gap(s: Seq<char>)
    requires
        forall|i: int| 0 <= i < s.len() - 1 ==> !(#[trigger] s[i] == ':' && s[i + 1] == ':'),
    ensures
        gap(s) == s.len(),
    decreases s.len(),
{
    if s.len() >= 2 {
        let t = s.skip(1);
        assert forall|i: int| 0 <= i < t.len() - 1 implies !(#[trigger] t[i] == ':' && t[i + 1]
            == ':') by {
            assert(t[i] == s[i + 1]);
        }
        assert(!(s[0] == ':' && s[0int + 1] == ':'));
        lemma_no_gap(t);
    }
}

/// The first gap is where the first adjacent colons are.
pub proof fn lemma_gap_after(s: Seq<char>, rest: Seq<char>)
    requires
        forall|i: int| 0 <= i < s.len() - 1 ==> !(#[trigger] s[i] == ':' && s[i + 1] == ':'),
        s.len() > 0 ==> s.last() != ':',
    ensures
        gap(s + seq![':', ':'] + rest) == s.len(),
    decreases s.len(),
{
    let w = s + seq![':', ':'] + rest;
    if s.len() == 0 {
        assert(w[0] == ':' && w[1] == ':');
    } else {
        assert(w[0] == s[0]);
        if s.len() > 1 {
            assert(w[1] == s[1]);
            assert(!(s[0] == ':' && s[0int + 1] == ':'));
        } else {
            assert(s.last() == s[0]);
        }
        let t = s.skip(1);
        assert(w.skip(1) =~= t + seq![':', ':'] + rest);
        assert forall|i: int| 0 <= i < t.len() - 1 implies !(#[trigger] t[i] == ':' && t[i + 1]
            == ':') by {
            assert(t[i] == s[i + 1]);
        }
        if t.len() > 0 {
            assert(t.last() == s.last());
        }
        lemma_gap_after(t, rest);
    }
}

/// Text with a colon in it is not an IPv4 address.
pub proof fn lemma_colon_is_not_v4(s: Seq<char>)
    requires
        holds(s, just(':')),
    ensures
        v4_of(s) is None,
{
    let k = choose|k: int| 0 <= k < s.len() && just(':')(#[trigger] s[k]);
    let r = lemma_split_covers(s, '.', k);
    let p = split(s, '.')[r.0];
    assert(!is_digit(p[r.1], 10));
    assert(!all_digits(p, 10));
}

/// A written IPv6 address reads back.
#[verifier::rlimit(60)]
#[verifier::spinoff_prover]
proof fn lemma_v6_back(g: Seq<u16>)
    requires
        g.len() == 8,
    ensures
        v6_of(v6_text(g)) == Some(of_groups(g)),
        holds(v6_text(g), just(':')),
{
    let s = v6_text(g);
    let run = longest(g, 8);
    lemma_longest(g, 8);
    if is_mapped(g) {
        let v4 = v4_text(
            (g[6] / 256) as u8,
            (g[6] % 256) as u8,
            (g[7] / 256) as u8,
            (g[7] % 256) as u8,
        );
        lemma_v4_back(
            (g[6] / 256) as u8,
            (g[6] % 256) as u8,
            (g[7] / 256) as u8,
            (g[7] % 256) as u8,
        );
        let none = Seq::<char>::empty();
        let tail = hex(0xffff) + seq![':'] + v4;
        assert(s =~= none + seq![':', ':'] + tail);
        lemma_gap_after(none, tail);
        assert(s.take(0) =~= none);
        assert(s.skip(2) =~= tail);
        lemma_digits_hold_no(0xffff, 16, ':');
        lemma_split_first(hex(0xffff), ':', v4);
        lemma_split_one(v4, ':');
        let p = split(tail, ':');
        assert(p =~= seq![hex(0xffff), v4]);
        lemma_group_back(0xffff);
        assert(group_of(p[1]) is None);
        assert(!all_groups(p));
        assert(p.drop_last() =~= seq![hex(0xffff)]);
        assert(all_groups(p.drop_last()));
        assert(groups_of(p.drop_last()) =~= seq![0xffffu16]);
        assert(run_of(tail, true)->0 =~= seq![0xffffu16, g[6], g[7]]);
        let all = Seq::<u16>::empty() + zeros(5) + seq![0xffffu16, g[6], g[7]];
        assert(all =~= g);
        assert(s[0] == ':');
        assert(just(':')(s[0]));
    } else if run.1 > 1 {
        let head = g.take(run.0);
        let tail = g.skip(run.0 + run.1);
        let h = join_groups(head);
        let t = join_groups(tail);
        if head.len() > 0 {
            lemma_join_split(head);
        }
        lemma_gap_after(h, t);
        assert(s.take(h.len() as int) =~= h);
        assert(s.skip(h.len() as int + 2) =~= t);
        lemma_run_back(head, false);
        lemma_run_back(tail, true);
        assert(head + zeros(8 - head.len() - tail.len()) + tail =~= g);
        assert(s[h.len() as int] == ':');
        assert(just(':')(s[h.len() as int]));
    } else {
        lemma_join_split(g);
        lemma_no_gap(s);
        lemma_run_back(g, true);
        let h = hex(g[0]);
        assert(s[h.len() as int] == ':');
        assert(just(':')(s[h.len() as int]));
    }
}

/// Every address reads back from its canonical form.
pub proof fn lemma_ip_round_trip(a: IpAddr)
    ensures
        ip_of(ip_text(a)) == Some(a),
        is_v6(ip_text(a)) <==> a is V6,
{
    match a {
        IpAddr::V4(x, y, z, w) => {
            lemma_v4_back(x, y, z, w);
            lemma_v4_text_is_not_v6(x, y, z, w);
        },
        IpAddr::V6(..) => {
            lemma_v6_back(groups(a));
            lemma_colon_is_not_v4(ip_text(a));
        },
    }
}

/// Dotted text is not an IPv6 address.
proof fn lemma_v4_text_is_not_v6(a: u8, b: u8, c: u8, d: u8)
    ensures
        v6_of(v4_text(a, b, c, d)) is None,
{
    let s = v4_text(a, b, c, d);
    lemma_v4_back(a, b, c, d);
    assert forall|i: int| 0 <= i < s.len() - 1 implies !(#[trigger] s[i] == ':' && s[i + 1]
        == ':') by {
        assert(!just(':')(s[i]));
    }
    lemma_no_gap(s);
    lemma_split_one(s, ':');
    assert(split(s, ':') =~= seq![s]);
    let p = split(s, ':');
    assert(group_of(p[0]) is None);
    assert(p.drop_last() =~= Seq::<Seq<char>>::empty());
    assert(groups_of(p.drop_last()) =~= Seq::<u16>::empty());
    assert(p.last() == s);
    assert(run_of(s, true)->0.len() == 2);
}

/// A character that can occur in a written address.
pub open spec fn is_addr_char(c: char) -> bool {
    c == ':' || c == '.' || is_digit(c, 16)
}

/// An IPv4 address is written with digits and dots only.
proof fn lemma_v4_chars(s: Seq<char>, k: int)
    requires
        v4_of(s) is Some,
        0 <= k < s.len(),
    ensures
        is_addr_char(s[k]),
{
    if s[k] != '.' {
        let r = lemma_split_covers(s, '.', k);
        let p = split(s, '.')[r.0];
        assert(octet_of(p) is Some);
        assert(is_digit(p[r.1], 10));
    }
}

/// A run of groups is written with digits, colons and dots only.
proof fn lemma_run_chars(s: Seq<char>, tail: bool, k: int)
    requires
        run_of(s, tail) is Some,
        0 <= k < s.len(),
    ensures
        is_addr_char(s[k]),
{
    if s[k] != ':' {
        let r = lemma_split_covers(s, ':', k);
        let ps = split(s, ':');
        let p = ps[r.0];
        if all_groups(ps) {
            assert(group_of(ps[r.0]) is Some);
            assert(is_digit(p[r.1], 16));
        } else if r.0 < ps.len() - 1 {
            assert(ps.drop_last()[r.0] == p);
            assert(group_of(ps.drop_last()[r.0]) is Some);
            assert(is_digit(p[r.1], 16));
        } else {
            lemma_v4_chars(p, r.1);
        }
    }
}

/// The first gap is inside the text and is a pair of colons.
proof fn lemma_gap(s: Seq<char>)
    ensures
        0 <= gap(s) <= s.len(),
        gap(s) < s.len() ==> gap(s) + 2 <= s.len() && s[gap(s)] == ':' && s[gap(s) + 1] == ':',
    decreases s.len(),
{
    if s.len() >= 2 && !(s[0] == ':' && s[1] == ':') {
        lemma_gap(s.skip(1));
    }
}

/// An IPv6 address is written with hexadecimal digits, colons and dots only.
pub proof fn lemma_v6_chars(s: Seq<char>, k: int)
    requires
        is_v6(s),
        0 <= k < s.len(),
    ensures
        is_addr_char(s[k]),
{
    lemma_gap(s);
    let i = gap(s);
    if i < s.len() {
        if k < i {
            assert(s.take(i)[k] == s[k]);
            lemma_run_chars(s.take(i), false, k);
        } else if k >= i + 2 {
            assert(s.skip(i + 2)[k - i - 2] == s[k]);
            lemma_run_chars(s.skip(i + 2), true, k - i - 2);
        }
    } else {
        lemma_run_chars(s, true, k);
    }
}

/// An address of either family is written with hexadecimal digits, colons and
/// dots only, and is not empty.
pub proof fn lemma_ip_chars(s: Seq<char>)
    requires
        ip_of(s) is Some,
    ensures
        s.len() > 0,
        forall|k: int| 0 <= k < s.len() ==> is_addr_char(#[trigger] s[k]),
{
    assert forall|k: int| 0 <= k < s.len() implies is_addr_char(#[trigger] s[k]) by {
        if v4_of(s) is Some {
            lemma_v4_chars(s, k);
        } else {
            lemma_v6_chars(s, k);
        }
    }
    if s.len() == 0 {
        lemma_split_one(s, '.');
        assert(run_of(s, true)->0.len() == 0);
    }
}

/// Text with fewer than two colons is not an IPv6 address.
pub proof fn lemma_one_colon_is_not_v6(h: Seq<char>, d: Seq<char>)
    requires
        !holds(h, just(':')),
        !holds(d, just(':')),
    ensures
        !is_v6(h),
        !is_v6(h + seq![':'] + d),
{
    assert forall|i: int| 0 <= i < h.len() - 1 implies !(#[trigger] h[i] == ':' && h[i + 1]
        == ':') by {
        assert(!just(':')(h[i]));
    }
    lemma_no_gap(h);
    lemma_split_one(h, ':');
    let s = h + seq![':'] + d;
    assert forall|i: int| 0 <= i < s.len() - 1 implies !(#[trigger] s[i] == ':' && s[i + 1]
        == ':') by {
        if i < h.len() {
            assert(!just(':')(h[i]));
        } else if i == h.len() {
            assert(s[i + 1] == d[0]);
            assert(!just(':')(d[0]));
        } else {
            assert(s[i] == d[i - h.len() - 1]);
            assert(!just(':')(d[i - h.len() - 1]));
        }
    }
    lemma_no_gap(s);
    lemma_split_first(h, ':', d);
    lemma_split_one(d, ':');
    assert(split(s, ':') =~= seq![h, d]);
}

/// Addresses differ exactly when their canonical forms differ.
pub proof fn lemma_ip_text_injective(a: IpAddr, b: IpAddr)
    ensures
        ip_text(a) == ip_text(b) <==> a == b,
{
    lemma_ip_round_trip(a);
    lemma_ip_round_trip(b);
}

} // verus!
