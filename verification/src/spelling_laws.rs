//! How numbers, addresses and destinations are spelled.
use crate::addr::{
    all_groups, gap, group_of, groups, groups_of, ip_of, ip_text, is_mapped, is_v6, join_groups,
    lemma_gap_after, lemma_no_gap, longest, octet_of, run_of, v4_of, zero_run, zeros, IpAddr,
};
use crate::number::{all_digits, dec, digits, is_digit, number_of, value};
use crate::target::{port_of, target_of, target_text};
use crate::text::{
    find, holds, is_trimmed, just, lemma_find, lemma_find_is, lemma_split_first, lemma_split_one,
    lemma_trim_fixed, split,
};
use vstd::prelude::*;

verus! {

// ---------------------------------------------------------------------------
// Numbers.
// ---------------------------------------------------------------------------

/// Digits are read from the left: each counts ten, or sixteen, times what stands
/// behind it. Letters count from ten on, in either case.
pub proof fn lemma_digits_are_read(s: Seq<char>, c: char, radix: nat)
    ensures
        value(Seq::empty(), radix) == 0,
        '0' <= c <= '9' ==> value(s.push(c), radix) == value(s, radix) * radix + (c as int
            - '0' as int),
        'a' <= c <= 'f' ==> value(s.push(c), radix) == value(s, radix) * radix + (c as int
            - 'a' as int + 10),
        'A' <= c <= 'F' ==> value(s.push(c), radix) == value(s, radix) * radix + (c as int
            - 'A' as int + 10),
        is_digit(c, 10) <==> '0' <= c <= '9',
        is_digit(c, 16) <==> '0' <= c <= '9' || 'a' <= c <= 'f' || 'A' <= c <= 'F',
{
    assert(s.push(c).drop_last() =~= s);
}

/// Are these all decimal digits?
pub open spec fn is_decimal(t: Seq<char>) -> bool {
    forall|i: int| 0 <= i < t.len() ==> '0' <= #[trigger] t[i] <= '9'
}

/// A number is one or more decimal digits, with or without a plus sign in front, and
/// not too large.
pub proof fn lemma_numbers_are_read(t: Seq<char>, max: nat)
    requires
        t.len() > 0 ==> t[0] != '+',
    ensures
        t.len() > 0 && is_decimal(t) && value(t, 10) <= max ==> number_of(t, max) == Some(
            value(t, 10),
        ) && number_of(seq!['+'] + t, max) == Some(value(t, 10)),
        t.len() == 0 || !is_decimal(t) || value(t, 10) > max ==> number_of(t, max) is None
            && number_of(seq!['+'] + t, max) is None,
{
    let signed = seq!['+'] + t;
    assert(signed.skip(1) =~= t);
    if all_digits(t, 10) {
        assert forall|i: int| 0 <= i < t.len() implies '0' <= #[trigger] t[i] <= '9' by {
            assert(is_digit(t[i], 10));
        }
    }
    if is_decimal(t) {
        assert forall|i: int| 0 <= i < t.len() implies is_digit(#[trigger] t[i], 10) by {}
    }
}

/// A port is a number up to 65535.
pub proof fn lemma_ports_are_read(s: Seq<char>)
    ensures
        port_of(s) matches Some(p) ==> number_of(s, 65535) == Some(p as nat),
        port_of(s) is None ==> number_of(s, 65535) is None,
{
}

/// Numbers are written with decimal digits, the most significant first, and without
/// zeros in front.
pub proof fn lemma_numbers_are_written(n: nat, d: nat)
    requires
        d < 10,
    ensures
        dec(d) == seq![(d + '0' as u32) as char],
        n > 0 ==> dec(n * 10 + d) == dec(n).push((d + '0' as u32) as char),
{
    if n > 0 {
        let m = n * 10 + d;
        assert(m / 10 == n && m % 10 == d);
    }
}

// ---------------------------------------------------------------------------
// Addresses.
// ---------------------------------------------------------------------------

/// An IPv4 address is four numbers up to 255 with dots between them, of one to three
/// digits each and without zeros in front.
pub proof fn lemma_dotted_addresses_are_read(
    p: Seq<char>,
    q: Seq<char>,
    r: Seq<char>,
    s: Seq<char>,
)
    requires
        is_octet(p),
        is_octet(q),
        is_octet(r),
        is_octet(s),
    ensures
        ip_of(p + seq!['.'] + (q + seq!['.'] + (r + seq!['.'] + s))) == Some(
            IpAddr::V4(
                value(p, 10) as u8,
                value(q, 10) as u8,
                value(r, 10) as u8,
                value(s, 10) as u8,
            ),
        ),
{
    lemma_octet(p, '.');
    lemma_octet(q, '.');
    lemma_octet(r, '.');
    lemma_octet(s, '.');
    let rs = r + seq!['.'] + s;
    let qrs = q + seq!['.'] + rs;
    let all = p + seq!['.'] + qrs;
    lemma_split_one(s, '.');
    lemma_split_first(r, '.', s);
    lemma_split_first(q, '.', rs);
    lemma_split_first(p, '.', qrs);
    let parts = split(all, '.');
    assert(parts =~= seq![p, q, r, s]);
}

/// Could this be one of the four numbers of an IPv4 address?
pub open spec fn is_octet(p: Seq<char>) -> bool {
    &&& 1 <= p.len() <= 3
    &&& forall|i: int| 0 <= i < p.len() ==> '0' <= #[trigger] p[i] <= '9'
    &&& p.len() > 1 ==> p[0] != '0'
    &&& value(p, 10) <= 255
}

proof fn lemma_octet(p: Seq<char>, c: char)
    requires
        is_octet(p),
        c == '.' || c == ':',
    ensures
        octet_of(p) == Some(value(p, 10) as u8),
        !holds(p, just(c)),
{
    assert forall|i: int| 0 <= i < p.len() implies is_digit(#[trigger] p[i], 10) by {}
}

/// Nothing else with four parts is one.
pub proof fn lemma_other_dotted_texts_are_refused(s: Seq<char>)
    ensures
        v4_of(s) is Some <==> split(s, '.').len() == 4 && forall|i: int|
            0 <= i < 4 ==> is_octet(#[trigger] split(s, '.')[i]),
{
    let p = split(s, '.');
    if p.len() == 4 {
        lemma_octets_agree(p[0]);
        lemma_octets_agree(p[1]);
        lemma_octets_agree(p[2]);
        lemma_octets_agree(p[3]);
        assert(v4_of(s) is Some <==> is_octet(p[0]) && is_octet(p[1]) && is_octet(p[2])
            && is_octet(p[3]));
        if forall|i: int| 0 <= i < 4 ==> is_octet(#[trigger] p[i]) {
            assert(is_octet(p[0]) && is_octet(p[1]) && is_octet(p[2]) && is_octet(p[3]));
        }
    }
}

proof fn lemma_octets_agree(p: Seq<char>)
    ensures
        octet_of(p) is Some <==> is_octet(p),
{
    if octet_of(p) is Some {
        assert forall|i: int| 0 <= i < p.len() implies '0' <= #[trigger] p[i] <= '9' by {
            assert(is_digit(p[i], 10));
        }
    }
    if is_octet(p) {
        lemma_octet(p, '.');
    }
}

/// Could this be a group of an IPv6 address: one to four hexadecimal digits?
pub open spec fn is_group_text(p: Seq<char>) -> bool {
    &&& 1 <= p.len() <= 4
    &&& forall|i: int|
        0 <= i < p.len() ==> ('0' <= #[trigger] p[i] <= '9' || 'a' <= p[i] <= 'f' || 'A' <= p[i]
            <= 'F')
}

/// Texts with colons between them.
pub open spec fn coloned(p: Seq<Seq<char>>) -> Seq<char>
    decreases p.len(),
{
    if p.len() == 0 {
        Seq::empty()
    } else if p.len() == 1 {
        p[0]
    } else {
        p[0] + seq![':'] + coloned(p.skip(1))
    }
}

proof fn lemma_group_text(p: Seq<char>)
    requires
        is_group_text(p),
    ensures
        group_of(p) == Some(value(p, 16) as u16),
        forall|i: int| 0 <= i < p.len() ==> #[trigger] p[i] != ':',
        !holds(p, just(':')),
{
    assert forall|i: int| 0 <= i < p.len() implies is_digit(#[trigger] p[i], 16) by {}
    assert(all_digits(p, 16));
}

spec fn is_piece(p: Seq<char>) -> bool {
    p.len() > 0 && forall|i: int| 0 <= i < p.len() ==> #[trigger] p[i] != ':'
}

proof fn lemma_group_pieces(p: Seq<Seq<char>>)
    requires
        forall|i: int| 0 <= i < p.len() ==> is_group_text(#[trigger] p[i]),
    ensures
        forall|i: int| 0 <= i < p.len() ==> is_piece(#[trigger] p[i]),
{
    assert forall|i: int| 0 <= i < p.len() implies is_piece(#[trigger] p[i]) by {
        lemma_group_text(p[i]);
    }
}

proof fn lemma_coloned(p: Seq<Seq<char>>)
    requires
        p.len() > 0,
        forall|i: int| 0 <= i < p.len() ==> is_piece(#[trigger] p[i]),
    ensures
        split(coloned(p), ':') == p,
        coloned(p).len() > 0,
        coloned(p)[0] != ':',
        coloned(p).last() != ':',
        forall|i: int|
            0 <= i < coloned(p).len() - 1 ==> !(#[trigger] coloned(p)[i] == ':' && coloned(p)[i + 1]
                == ':'),
    decreases p.len(),
{
    assert(is_piece(p[0]));
    let h = p[0];
    assert(!holds(h, just(':')));
    if p.len() == 1 {
        lemma_split_one(h, ':');
        assert(seq![h] =~= p);
        assert(h[0] != ':' && h[h.len() - 1] != ':');
    } else {
        let t = p.skip(1);
        assert forall|i: int| 0 <= i < t.len() implies is_piece(#[trigger] t[i]) by {
            assert(t[i] == p[i + 1]);
        }
        lemma_coloned(t);
        let r = coloned(t);
        let s = coloned(p);
        lemma_split_first(h, ':', r);
        assert(seq![h] + t =~= p);
        assert(s[0] == h[0]);
        assert(s.last() == r.last());
        assert forall|i: int| 0 <= i < s.len() - 1 implies !(#[trigger] s[i] == ':' && s[i + 1]
            == ':') by {
            if i < h.len() {
                assert(s[i] == h[i]);
            } else if i == h.len() {
                assert(s[i + 1] == r[0]);
            } else {
                assert(s[i] == r[i - h.len() - 1]);
                assert(s[i + 1] == r[i - h.len() - 1 + 1]);
            }
        }
    }
}

proof fn lemma_run(p: Seq<Seq<char>>, tail: bool)
    requires
        forall|i: int| 0 <= i < p.len() ==> is_group_text(#[trigger] p[i]),
    ensures
        run_of(coloned(p), tail) == Some(Seq::new(p.len(), |i: int| value(p[i], 16) as u16)),
{
    let want = Seq::new(p.len(), |i: int| value(p[i], 16) as u16);
    if p.len() == 0 {
        assert(want =~= Seq::<u16>::empty());
    } else {
        lemma_group_pieces(p);
        lemma_coloned(p);
        assert forall|i: int| 0 <= i < p.len() implies group_of(#[trigger] p[i]) == Some(
            value(p[i], 16) as u16,
        ) by {
            lemma_group_text(p[i]);
        }
        assert(all_groups(p));
        assert(groups_of(p) =~= want);
    }
}

proof fn lemma_coloned_is_not_v4(s: Seq<char>, i: int)
    requires
        0 <= i < s.len(),
        s[i] == ':',
    ensures
        v4_of(s) is None,
{
    assert(just(':')(s[i]));
    crate::addr::lemma_colon_is_not_v4(s);
}

/// Eight groups with colons between them are an IPv6 address, in whatever case and
/// with whatever zeros they are written.
pub proof fn lemma_full_addresses_are_read(p: Seq<Seq<char>>)
    requires
        p.len() == 8,
        forall|i: int| 0 <= i < p.len() ==> is_group_text(#[trigger] p[i]),
    ensures
        ip_of(coloned(p)) == Some(
            IpAddr::V6(
                value(p[0], 16) as u16,
                value(p[1], 16) as u16,
                value(p[2], 16) as u16,
                value(p[3], 16) as u16,
                value(p[4], 16) as u16,
                value(p[5], 16) as u16,
                value(p[6], 16) as u16,
                value(p[7], 16) as u16,
            ),
        ),
{
    let s = coloned(p);
    lemma_group_pieces(p);
    lemma_coloned(p);
    lemma_no_gap(s);
    lemma_run(p, true);
    assert(is_group_text(p[0]));
    assert(s == p[0] + seq![':'] + coloned(p.skip(1)));
    assert(s[p[0].len() as int] == ':');
    lemma_coloned_is_not_v4(s, p[0].len() as int);
}

/// Two colons in a row stand for as many groups of zero as are missing, and for at
/// least one.
pub proof fn lemma_short_addresses_are_read(p: Seq<Seq<char>>, q: Seq<Seq<char>>)
    requires
        p.len() + q.len() <= 7,
        forall|i: int| 0 <= i < p.len() ==> is_group_text(#[trigger] p[i]),
        forall|i: int| 0 <= i < q.len() ==> is_group_text(#[trigger] q[i]),
    ensures
        ({
            let n = (8 - p.len() - q.len()) as nat;
            let g = Seq::new(p.len(), |i: int| value(p[i], 16) as u16) + Seq::new(
                n,
                |i: int| 0u16,
            ) + Seq::new(q.len(), |i: int| value(q[i], 16) as u16);
            ip_of(coloned(p) + seq![':', ':'] + coloned(q)) == Some(
                IpAddr::V6(g[0], g[1], g[2], g[3], g[4], g[5], g[6], g[7]),
            )
        }),
{
    let a = coloned(p);
    let b = coloned(q);
    let s = a + seq![':', ':'] + b;
    if p.len() > 0 {
        lemma_group_pieces(p);
        lemma_coloned(p);
    }
    lemma_gap_after(a, b);
    lemma_run(p, false);
    lemma_run(q, true);
    assert(s.take(a.len() as int) =~= a);
    assert(s.skip(a.len() as int + 2) =~= b);
    assert(s[a.len() as int] == ':');
    lemma_coloned_is_not_v4(s, a.len() as int);
    assert(zeros(8 - p.len() - q.len()) =~= Seq::new(
        (8 - p.len() - q.len()) as nat,
        |i: int| 0u16,
    ));
}

/// An IPv4 address is written as four decimal numbers with dots between them. An
/// IPv6 address without two groups of zero in a row is written as its eight groups
/// in hexadecimal with colons between them.
pub proof fn lemma_addresses_are_written(p: u8, q: u8, r: u8, s: u8, a: IpAddr)
    ensures
        ip_text(IpAddr::V4(p, q, r, s)) == dec(p as nat) + "."@ + (dec(q as nat) + "."@ + (dec(
            r as nat,
        ) + "."@ + dec(s as nat))),
        a is V6 && (forall|i: int|
            0 <= i < 7 ==> !(#[trigger] groups(a)[i] == 0 && groups(a)[i + 1] == 0)) ==> ip_text(a)
            == coloned(Seq::new(8, |i: int| digits(groups(a)[i] as nat, 16))),
{
    reveal_strlit(".");
    assert("."@ =~= seq!['.']);
    if a is V6 && (forall|i: int|
        0 <= i < 7 ==> !(#[trigger] groups(a)[i] == 0 && groups(a)[i + 1] == 0)) {
        let g = groups(a);
        assert(!(g[0] == 0 && g[0int + 1] == 0));
        assert(!is_mapped(g));
        lemma_short_runs(g, 8);
        assert(longest(g, 8).1 <= 1);
        lemma_joined_groups(g);
        assert(Seq::new(g.len(), |i: int| digits(g[i] as nat, 16)) =~= Seq::new(
            8,
            |i: int| digits(groups(a)[i] as nat, 16),
        ));
    }
}

proof fn lemma_short_runs(g: Seq<u16>, n: int)
    requires
        g.len() == 8,
        0 <= n <= 8,
        forall|i: int| 0 <= i < 7 ==> !(#[trigger] g[i] == 0 && g[i + 1] == 0),
    ensures
        longest(g, n).1 <= 1,
    decreases n,
{
    if n > 0 {
        lemma_short_runs(g, n - 1);
        if g[n - 1] == 0 && n < 8 {
            assert(g[n - 1 + 1] != 0);
            assert(zero_run(g, n) == 0);
        }
        if n == 8 {
            assert(zero_run(g, 8) == 0);
        }
    }
}

proof fn lemma_joined_groups(g: Seq<u16>)
    ensures
        join_groups(g) == coloned(Seq::new(g.len(), |i: int| digits(g[i] as nat, 16))),
    decreases g.len(),
{
    let p = Seq::new(g.len(), |i: int| digits(g[i] as nat, 16));
    if g.len() > 1 {
        let t = g.skip(1);
        lemma_joined_groups(t);
        assert(p.skip(1) =~= Seq::new(t.len(), |i: int| digits(t[i] as nat, 16)));
    }
}

/// Four numbers with dots between them.
pub open spec fn dotted(p: Seq<char>, q: Seq<char>, r: Seq<char>, s: Seq<char>) -> Seq<char> {
    p + seq!['.'] + (q + seq!['.'] + (r + seq!['.'] + s))
}

proof fn lemma_dotted_piece(p: Seq<char>, q: Seq<char>, r: Seq<char>, s: Seq<char>)
    requires
        is_octet(p),
        is_octet(q),
        is_octet(r),
        is_octet(s),
    ensures
        is_piece(dotted(p, q, r, s)),
        group_of(dotted(p, q, r, s)) is None,
        v4_of(dotted(p, q, r, s)) == Some(
            IpAddr::V4(
                value(p, 10) as u8,
                value(q, 10) as u8,
                value(r, 10) as u8,
                value(s, 10) as u8,
            ),
        ),
{
    let d = dotted(p, q, r, s);
    lemma_dotted_addresses_are_read(p, q, r, s);
    lemma_octet(p, '.');
    lemma_octet(q, '.');
    lemma_octet(r, '.');
    lemma_octet(s, '.');
    let rs = r + seq!['.'] + s;
    let qrs = q + seq!['.'] + rs;
    lemma_split_one(s, '.');
    lemma_split_first(r, '.', s);
    lemma_split_first(q, '.', rs);
    lemma_split_first(p, '.', qrs);
    assert(split(d, '.') =~= seq![p, q, r, s]);
    assert(d[p.len() as int] == '.');
    assert(!is_digit('.', 16));
    assert forall|i: int| 0 <= i < d.len() implies #[trigger] d[i] != ':' by {
        let a = p.len();
        let b = q.len();
        let c = r.len();
        if i < a {
            assert(d[i] == p[i]);
        } else if i > a && i - a - 1 < b {
            assert(d[i] == q[i - a - 1]);
        } else if i > a + 1 + b && i - a - b - 2 < c {
            assert(d[i] == r[i - a - b - 2]);
        } else if i > a + b + c + 2 {
            assert(d[i] == s[i - a - b - c - 3]);
        }
    }
}

proof fn lemma_run_with_tail(
    h: Seq<Seq<char>>,
    p: Seq<char>,
    q: Seq<char>,
    r: Seq<char>,
    s: Seq<char>,
)
    requires
        forall|i: int| 0 <= i < h.len() ==> is_group_text(#[trigger] h[i]),
        is_octet(p),
        is_octet(q),
        is_octet(r),
        is_octet(s),
    ensures
        run_of(coloned(h.push(dotted(p, q, r, s))), true) == Some(
            Seq::new(h.len(), |i: int| value(h[i], 16) as u16) + seq![
                (value(p, 10) * 256 + value(q, 10)) as u16,
                (value(r, 10) * 256 + value(s, 10)) as u16,
            ],
        ),
{
    let d = dotted(p, q, r, s);
    let all = h.push(d);
    lemma_dotted_piece(p, q, r, s);
    lemma_group_pieces(h);
    assert forall|i: int| 0 <= i < all.len() implies is_piece(#[trigger] all[i]) by {
        if i < h.len() {
            assert(all[i] == h[i]);
        }
    }
    lemma_coloned(all);
    assert(all.last() == d);
    assert(all[h.len() as int] == d);
    assert(!all_groups(all));
    assert(all.drop_last() =~= h);
    assert forall|i: int| 0 <= i < h.len() implies group_of(#[trigger] h[i]) == Some(
        value(h[i], 16) as u16,
    ) by {
        lemma_group_text(h[i]);
    }
    assert(all_groups(h));
    assert(groups_of(h) =~= Seq::new(h.len(), |i: int| value(h[i], 16) as u16));
}

/// After six groups the last two groups of an IPv6 address may be written as an IPv4
/// address.
pub proof fn lemma_dotted_ends_are_read(
    h: Seq<Seq<char>>,
    p: Seq<char>,
    q: Seq<char>,
    r: Seq<char>,
    s: Seq<char>,
)
    requires
        h.len() == 6,
        forall|i: int| 0 <= i < h.len() ==> is_group_text(#[trigger] h[i]),
        is_octet(p),
        is_octet(q),
        is_octet(r),
        is_octet(s),
    ensures
        ip_of(coloned(h.push(dotted(p, q, r, s)))) == Some(
            IpAddr::V6(
                value(h[0], 16) as u16,
                value(h[1], 16) as u16,
                value(h[2], 16) as u16,
                value(h[3], 16) as u16,
                value(h[4], 16) as u16,
                value(h[5], 16) as u16,
                (value(p, 10) * 256 + value(q, 10)) as u16,
                (value(r, 10) * 256 + value(s, 10)) as u16,
            ),
        ),
{
    let d = dotted(p, q, r, s);
    let all = h.push(d);
    let text = coloned(all);
    lemma_run_with_tail(h, p, q, r, s);
    assert(gap(text) == text.len() && v4_of(text) is None) by {
        lemma_dotted_piece(p, q, r, s);
        lemma_group_pieces(h);
        assert forall|i: int| 0 <= i < all.len() implies is_piece(#[trigger] all[i]) by {
            if i < h.len() {
                assert(all[i] == h[i]);
            }
        }
        lemma_coloned(all);
        lemma_no_gap(text);
        assert(text == all[0] + seq![':'] + coloned(all.skip(1)));
        assert(text[all[0].len() as int] == ':');
        lemma_coloned_is_not_v4(text, all[0].len() as int);
    }
}

/// After two colons in a row the last two groups of an IPv6 address may be written as
/// an IPv4 address too.
pub proof fn lemma_short_dotted_ends_are_read(
    h: Seq<Seq<char>>,
    t: Seq<Seq<char>>,
    p: Seq<char>,
    q: Seq<char>,
    r: Seq<char>,
    s: Seq<char>,
)
    requires
        h.len() + t.len() <= 5,
        forall|i: int| 0 <= i < h.len() ==> is_group_text(#[trigger] h[i]),
        forall|i: int| 0 <= i < t.len() ==> is_group_text(#[trigger] t[i]),
        is_octet(p),
        is_octet(q),
        is_octet(r),
        is_octet(s),
    ensures
        ({
            let end = seq![
                (value(p, 10) * 256 + value(q, 10)) as u16,
                (value(r, 10) * 256 + value(s, 10)) as u16,
            ];
            let g = Seq::new(h.len(), |i: int| value(h[i], 16) as u16) + Seq::new(
                (6 - h.len() - t.len()) as nat,
                |i: int| 0u16,
            ) + (Seq::new(t.len(), |i: int| value(t[i], 16) as u16) + end);
            ip_of(coloned(h) + seq![':', ':'] + coloned(t.push(dotted(p, q, r, s)))) == Some(
                IpAddr::V6(g[0], g[1], g[2], g[3], g[4], g[5], g[6], g[7]),
            )
        }),
{
    let a = coloned(h);
    let b = coloned(t.push(dotted(p, q, r, s)));
    let text = a + seq![':', ':'] + b;
    lemma_run_with_tail(t, p, q, r, s);
    lemma_run(h, false);
    assert(gap(text) == a.len() && v4_of(text) is None) by {
        if h.len() > 0 {
            lemma_group_pieces(h);
            lemma_coloned(h);
        }
        lemma_gap_after(a, b);
        assert(text[a.len() as int] == ':');
        lemma_coloned_is_not_v4(text, a.len() as int);
    }
    assert(text.take(a.len() as int) =~= a);
    assert(text.skip(a.len() as int + 2) =~= b);
    assert(zeros(6 - h.len() - t.len()) =~= Seq::new(
        (6 - h.len() - t.len()) as nat,
        |i: int| 0u16,
    ));
}

/// An IPv4 address in IPv6 clothing is written as such.
pub proof fn lemma_mapped_addresses_are_written(p: u8, q: u8, r: u8, s: u8)
    ensures
        ip_text(
            IpAddr::V6(0, 0, 0, 0, 0, 0xffff, (p * 256 + q) as u16, (r * 256 + s) as u16),
        ) == "::ffff:"@ + ip_text(IpAddr::V4(p, q, r, s)),
{
    reveal_strlit("::ffff:");
    let a = IpAddr::V6(0, 0, 0, 0, 0, 0xffff, (p * 256 + q) as u16, (r * 256 + s) as u16);
    let g = groups(a);
    assert(is_mapped(g));
    assert(digits(0xf, 16) == seq!['f']);
    assert(digits(0xff, 16) =~= seq!['f', 'f']);
    assert(digits(0xfff, 16) =~= seq!['f', 'f', 'f']);
    assert(digits(0xffff, 16) =~= seq!['f', 'f', 'f', 'f']);
    assert(g[6] / 256 == p && g[6] % 256 == q);
    assert(g[7] / 256 == r && g[7] % 256 == s);
    assert(ip_text(a) =~= "::ffff:"@ + ip_text(IpAddr::V4(p, q, r, s)));
}

proof fn lemma_runs_count(g: Seq<u16>, k: int, m: int)
    requires
        0 <= k,
        0 <= m,
        k + m <= g.len(),
        forall|j: int| k <= j < k + m ==> #[trigger] g[j] == 0,
    ensures
        zero_run(g, k) >= m,
    decreases m,
{
    if m > 0 {
        assert(g[k] == 0);
        lemma_runs_count(g, k + 1, m - 1);
    } else {
        crate::addr::lemma_zero_run(g, k);
    }
}

proof fn lemma_longest_is_longest(g: Seq<u16>, n: int, k: int)
    requires
        0 <= k < n <= g.len(),
    ensures
        longest(g, n).1 >= zero_run(g, k),
        longest(g, n).1 == zero_run(g, k) && zero_run(g, k) > 0 ==> longest(g, n).0 <= k,
    decreases n,
{
    if k < n - 1 {
        lemma_longest_is_longest(g, n - 1, k);
    } else {
        lemma_longest_starts_before(g, n - 1);
    }
}

proof fn lemma_longest_starts_before(g: Seq<u16>, n: int)
    requires
        0 <= n,
    ensures
        longest(g, n).0 <= n,
    decreases n,
{
    if n > 0 {
        lemma_longest_starts_before(g, n - 1);
    }
}

/// Where two or more groups of zero stand in a row, the first of the longest such
/// rows is written as two colons, and the groups before and after it in hexadecimal.
pub proof fn lemma_zeros_are_shortened(a: IpAddr, k: int, m: int)
    requires
        a is V6,
        0 <= k,
        2 <= m,
        k + m <= 8,
        forall|j: int| k <= j < k + m ==> #[trigger] groups(a)[j] == 0,
        !(forall|j: int| 0 <= j < 5 ==> #[trigger] groups(a)[j] == 0) || groups(a)[5] != 0xffff,
    ensures
        exists|i: int, e: int|
            {
                &&& 0 <= i
                &&& i + m <= e <= 8
                &&& e == i + m ==> i <= k
                &&& #[trigger] groups(a).subrange(i, e) == Seq::new(
                    (e - i) as nat,
                    |j: int| 0u16,
                )
                &&& ip_text(a) == coloned(Seq::new(i as nat, |j: int| digits(groups(a)[j] as nat, 16)))
                    + seq![':', ':'] + coloned(
                    Seq::new((8 - e) as nat, |j: int| digits(groups(a)[e + j] as nat, 16)),
                )
            },
{
    let g = groups(a);
    let run = longest(g, 8);
    let i = run.0;
    let e = run.0 + run.1;
    lemma_runs_count(g, k, m);
    lemma_longest_is_longest(g, 8, k);
    crate::addr::lemma_longest(g, 8);
    assert(g.subrange(i, e) =~= Seq::new((e - i) as nat, |j: int| 0u16));
    if is_mapped(g) {
        assert forall|j: int| 0 <= j < 5 implies #[trigger] groups(a)[j] == 0 by {}
    }
    lemma_joined_groups(g.take(i));
    lemma_joined_groups(g.skip(e));
    assert(Seq::new(g.take(i).len(), |j: int| digits(g.take(i)[j] as nat, 16)) =~= Seq::new(
        i as nat,
        |j: int| digits(groups(a)[j] as nat, 16),
    ));
    assert(Seq::new(g.skip(e).len(), |j: int| digits(g.skip(e)[j] as nat, 16)) =~= Seq::new(
        (8 - e) as nat,
        |j: int| digits(groups(a)[e + j] as nat, 16),
    ));
}

/// The groups of an address, in order.
pub proof fn lemma_groups_of_addresses(
    a: u16,
    b: u16,
    c: u16,
    d: u16,
    e: u16,
    f: u16,
    g: u16,
    h: u16,
)
    ensures
        groups(IpAddr::V6(a, b, c, d, e, f, g, h)) == seq![a, b, c, d, e, f, g, h],
{
}

// ---------------------------------------------------------------------------
// Destinations.
// ---------------------------------------------------------------------------

/// What stands in brackets is taken as it is, with the port behind a colon after the
/// closing one, if there is one.
pub proof fn lemma_brackets_are_read(x: Seq<char>, d: Seq<char>)
    requires
        forall|i: int| 0 <= i < x.len() ==> x[i] != ']',
        d.len() > 0 ==> !crate::text::is_white(d.last()),
    ensures
        target_of(seq!['['] + x + seq![']']) == (x, None::<u16>),
        d.len() > 0 ==> target_of(seq!['['] + x + seq![']', ':'] + d) == (x, port_of(d)),
{
    let bare = seq!['['] + x + seq![']'];
    lemma_trim_fixed(bare);
    let inner = bare.skip(1);
    assert(inner =~= x + seq![']']);
    assert forall|j: int| 0 <= j < x.len() implies !just(']')(#[trigger] inner[j]) by {
        assert(inner[j] == x[j]);
    }
    assert(just(']')(inner[x.len() as int]));
    lemma_find_is(inner, just(']'), x.len() as int);
    assert(inner.take(x.len() as int) =~= x);
    assert(inner.skip(x.len() as int + 1).len() == 0);
    if d.len() > 0 {
        let full = seq!['['] + x + seq![']', ':'] + d;
        assert(full.last() == d.last());
        lemma_trim_fixed(full);
        let more = full.skip(1);
        assert(more =~= x + seq![']', ':'] + d);
        assert forall|j: int| 0 <= j < x.len() implies !just(']')(#[trigger] more[j]) by {
            assert(more[j] == x[j]);
        }
        assert(just(']')(more[x.len() as int]));
        lemma_find_is(more, just(']'), x.len() as int);
        assert(more.take(x.len() as int) =~= x);
        let after = more.skip(x.len() as int + 1);
        assert(after =~= seq![':'] + d);
        assert(after.skip(1) =~= d);
    }
}

/// A name without a colon is a name on every port. With one colon in it what follows
/// is the port, if it is one; and else the colon belongs to the name.
pub proof fn lemma_names_with_ports_are_read(h: Seq<char>, d: Seq<char>)
    requires
        h.len() > 0,
        is_trimmed(h),
        h[0] != '[',
        forall|i: int| 0 <= i < h.len() ==> h[i] != ':',
        forall|i: int| 0 <= i < d.len() ==> d[i] != ':',
        d.len() > 0,
        is_trimmed(d),
    ensures
        target_of(h) == (h, None::<u16>),
        target_of(h + seq![':'] + d) == (match port_of(d) {
            Some(p) => (h, Some(p)),
            None => (h + seq![':'] + d, None::<u16>),
        }),
{
    let colon = just(':');
    assert(!holds(h, colon)) by {
        assert forall|i: int| 0 <= i < h.len() implies !colon(#[trigger] h[i]) by {}
    }
    assert(!holds(d, colon)) by {
        assert forall|i: int| 0 <= i < d.len() implies !colon(#[trigger] d[i]) by {}
    }
    lemma_find(h, colon);
    lemma_trim_fixed(h);
    crate::addr::lemma_one_colon_is_not_v6(h, d);
    let s = h + seq![':'] + d;
    assert(s[0] == h[0] && s.last() == d.last());
    lemma_trim_fixed(s);
    assert forall|j: int| 0 <= j < h.len() implies !colon(#[trigger] s[j]) by {
        assert(s[j] == h[j]);
    }
    assert(colon(s[h.len() as int]));
    lemma_find_is(s, colon, h.len() as int);
    assert(s.take(h.len() as int) =~= h);
    assert(s.skip(h.len() as int + 1) =~= d);
}

/// A destination is written with its port behind a colon, and in brackets before it
/// if it is an IPv6 address.
pub proof fn lemma_destinations_are_written(h: Seq<char>, p: u16)
    ensures
        target_text(h, None) == h,
        is_v6(h) ==> target_text(h, Some(p)) == "["@ + h + "]:"@ + dec(p as nat),
        !is_v6(h) ==> target_text(h, Some(p)) == h + ":"@ + dec(p as nat),
{
    reveal_strlit("[");
    reveal_strlit("]:");
    reveal_strlit(":");
    assert("["@ =~= seq!['[']);
    assert("]:"@ =~= seq![']', ':']);
    assert(":"@ =~= seq![':']);
}

/// A carriage return belongs to the ending of a line; elsewhere it is a character
/// like any other.
pub proof fn lemma_line_endings(l: Seq<char>, rest: Seq<char>)
    requires
        forall|i: int| 0 <= i < l.len() ==> l[i] != '\n',
    ensures
        l.len() == 0 || l.last() != '\r' ==> crate::text::lines(l + seq!['\n'] + rest) == seq![l]
            + crate::text::lines(rest),
        crate::text::lines(l + seq!['\r', '\n'] + rest) == seq![l] + crate::text::lines(rest),
        l.len() > 0 ==> crate::text::lines(l) == seq![l],
        crate::text::lines(Seq::empty()) == Seq::<Seq<char>>::empty(),
{
    let nl = just('\n');
    let a = l + seq!['\n'] + rest;
    assert forall|j: int| 0 <= j < l.len() implies !nl(#[trigger] a[j]) by {
        assert(a[j] == l[j]);
    }
    assert(nl(a[l.len() as int]));
    lemma_find_is(a, nl, l.len() as int);
    assert(a.take(l.len() as int) =~= l);
    assert(a.skip(l.len() as int + 1) =~= rest);
    let b = l + seq!['\r', '\n'] + rest;
    let n = l.len() as int + 1;
    assert forall|j: int| 0 <= j < n implies !nl(#[trigger] b[j]) by {
        if j < l.len() {
            assert(b[j] == l[j]);
        } else {
            assert(b[j] == '\r');
        }
    }
    assert(nl(b[n]));
    lemma_find_is(b, nl, n);
    assert(b.take(n) =~= l.push('\r'));
    assert(l.push('\r').drop_last() =~= l);
    assert(b.skip(n + 1) =~= rest);
    lemma_find(l, nl);
    if l.len() > 0 {
        assert forall|j: int| 0 <= j < l.len() implies !nl(#[trigger] l[j]) by {}
    }
    assert(crate::text::lines(Seq::<char>::empty()) =~= Seq::<Seq<char>>::empty());
}

/// A text denotes an IPv6 address exactly if the address it denotes is one.
pub proof fn lemma_families_are_told_apart(s: Seq<char>)
    ensures
        is_v6(s) <==> (ip_of(s) matches Some(a) && a is V6),
{
    if v4_of(s) is Some {
        if holds(s, just(':')) {
            crate::addr::lemma_colon_is_not_v4(s);
        }
        assert forall|i: int| 0 <= i < s.len() - 1 implies !(#[trigger] s[i] == ':' && s[i + 1]
            == ':') by {
            assert(!just(':')(s[i]));
        }
        lemma_no_gap(s);
        lemma_split_one(s, ':');
        let p = split(s, ':');
        assert(p.len() == 1);
        assert(p.drop_last().len() == 0);
        assert(crate::addr::v6_of(s) is None);
    }
}

/// An IPv6 address without brackets is taken as it is: its last group is no port.
pub proof fn lemma_bare_addresses_are_read(s: Seq<char>)
    requires
        ip_of(s) matches Some(a) && a is V6,
    ensures
        target_of(s) == (s, None::<u16>),
{
    lemma_families_are_told_apart(s);
    if s.len() > 0 {
        crate::addr::lemma_v6_chars(s, 0);
        crate::addr::lemma_v6_chars(s, s.len() - 1);
    }
    assert(is_trimmed(s));
    lemma_trim_fixed(s);
}

/// A colon introduces a port only if it is the only one: any other text is taken as
/// it is.
pub proof fn lemma_other_destinations_are_read(s: Seq<char>, i: int, j: int)
    requires
        is_trimmed(s),
        0 <= i < j < s.len(),
        s[i] == ':',
        s[j] == ':',
        s[0] != '[',
    ensures
        target_of(s) == (s, None::<u16>),
{
    let colon = just(':');
    lemma_trim_fixed(s);
    lemma_find(s, colon);
    let k = find(s, colon);
    assert(colon(s[i]));
    assert(k <= i);
    let rest = s.skip(k + 1);
    assert(rest[j - k - 1] == s[j]);
    assert(colon(rest[j - k - 1]));
    assert(holds(rest, colon));
}

/// White space around a destination does not matter.
pub proof fn lemma_destinations_are_trimmed(a: Seq<char>, s: Seq<char>, b: Seq<char>)
    requires
        is_trimmed(s),
        s.len() > 0,
        forall|i: int| 0 <= i < a.len() ==> crate::text::is_white(#[trigger] a[i]),
        forall|i: int| 0 <= i < b.len() ==> crate::text::is_white(#[trigger] b[i]),
    ensures
        target_of(a + s + b) == target_of(s),
{
    crate::text::lemma_trim_around(a, s, b);
    lemma_trim_fixed(s);
}

} // verus!
