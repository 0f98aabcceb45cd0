//! Destinations as rules spell them: a name or address, and perhaps a port.
use crate::addr::{is_v6, lemma_one_colon_is_not_v6, lemma_v6_chars, parse_v6};
use crate::number::{
    all_digits, dec, is_digit, lemma_digits_value, lemma_number_of_dec, number_of, parse_number,
    push_dec,
};
use crate::text::{
    chars_of, copy_chars, find, find_char, holds, is_trimmed, just, lemma_find, lemma_find_is,
    lemma_trim_fixed, push_chars, string_of, trim, trim_chars,
};
use vstd::prelude::*;

verus! {

/// A destination as written in a rule: a name or address, and an optional port.
///
/// `None` for the port means any port.
pub type Target = (String, Option<u16>);

/// A destination as a value: the text of the name or address, and the port.
pub type TargetView = (Seq<char>, Option<u16>);

/// A destination seen as a value.
pub open spec fn target_view(t: Target) -> TargetView {
    (t.0@, t.1)
}

/// The port a text denotes, if it denotes one.
pub open spec fn port_of(s: Seq<char>) -> Option<u16> {
    match number_of(s, 65535) {
        Some(n) => Some(n as u16),
        None => None,
    }
}

/// Does the text hold exactly one colon, followed by a port?
pub open spec fn is_host_port(t: Seq<char>) -> bool {
    let i = find(t, just(':'));
    &&& i < t.len()
    &&& !holds(t.skip(i + 1), just(':'))
    &&& port_of(t.skip(i + 1)) is Some
}

/// Is this text a bracketed literal with its closing bracket?
pub open spec fn is_bracketed(t: Seq<char>) -> bool {
    t.len() > 0 && t[0] == '[' && holds(t.skip(1), just(']'))
}

/// The parts of `host`, `host:port`, `[v6]` or `[v6]:port`.
///
/// Brackets decide first. A bare IPv6 literal is taken whole, and a colon
/// introduces a port only when it is the only colon and a port follows it.
pub open spec fn target_of(s: Seq<char>) -> TargetView {
    let t = trim(s);
    let close = find(t.skip(1), just(']'));
    let after = t.skip(1).skip(close + 1);
    let colon = find(t, just(':'));
    if is_bracketed(t) {
        (
            t.skip(1).take(close),
            if after.len() > 0 && after[0] == ':' {
                port_of(after.skip(1))
            } else {
                None
            },
        )
    } else if is_v6(t) {
        (t, None)
    } else if is_host_port(t) {
        (t.take(colon), port_of(t.skip(colon + 1)))
    } else {
        (t, None)
    }
}

/// The way a rule spells a destination.
pub open spec fn target_text(host: Seq<char>, port: Option<u16>) -> Seq<char> {
    match port {
        None => host,
        Some(p) => if is_v6(host) {
            seq!['['] + host + seq![']', ':'] + dec(p as nat)
        } else {
            host + seq![':'] + dec(p as nat)
        },
    }
}

/// Read a port.
pub fn parse_port(s: &[char]) -> (r: Option<u16>)
    ensures
        r == port_of(s@),
{
    match parse_number(s, 65535) {
        Some(n) => Some(n as u16),
        None => None,
    }
}

/// Take a destination apart.
pub fn split_target_chars(s: &[char]) -> (r: (Vec<char>, Option<u16>))
    ensures
        (r.0@, r.1) == target_of(s@),
{
    let t = trim_chars(s);
    let n: usize = t.len();
    if n > 0 && t[0] == '[' {
        let rest = &t[1..n];
        assert(rest@ =~= t@.skip(1));
        let close = find_char(rest, ']');
        proof {
            lemma_find(rest@, just(']'));
        }
        if close < rest.len() {
            let host = &rest[0..close];
            assert(host@ =~= rest@.take(close as int));
            let after = &rest[close + 1..rest.len()];
            assert(after@ =~= rest@.skip(close + 1));
            let port = if after.len() > 0 && after[0] == ':' {
                let num = &after[1..after.len()];
                assert(num@ =~= after@.skip(1));
                parse_port(num)
            } else {
                None
            };
            return (copy_chars(host), port);
        }
    }
    assert(!is_bracketed(t@));
    if parse_v6(t).is_some() {
        return (copy_chars(t), None);
    }
    let i = find_char(t, ':');
    if i < n {
        let rest = &t[i + 1..n];
        assert(rest@ =~= t@.skip(i + 1));
        let again = find_char(rest, ':');
        proof {
            lemma_find(rest@, just(':'));
        }
        if again == rest.len() {
            if let Some(p) = parse_port(rest) {
                let host = &t[0..i];
                assert(host@ =~= t@.take(i as int));
                return (copy_chars(host), Some(p));
            }
        }
    }
    (copy_chars(t), None)
}

/// Split "host", "host:port", or "[v6addr]:port" into its parts.
pub fn split_target(s: &str) -> (r: Target)
    ensures
        target_view(r) == target_of(s@),
{
    let c = chars_of(s);
    let (host, port) = split_target_chars(&c);
    (string_of(&host), port)
}

/// Append a destination the way a rule file spells it.
pub fn push_target(out: &mut Vec<char>, host: &[char], port: Option<u16>)
    ensures
        final(out)@ == old(out)@ + target_text(host@, port),
{
    match port {
        None => push_chars(out, host),
        Some(p) => {
            if parse_v6(host).is_some() {
                out.push('[');
                push_chars(out, host);
                out.push(']');
                out.push(':');
                push_dec(out, p as u64);
            } else {
                push_chars(out, host);
                out.push(':');
                push_dec(out, p as u64);
            }
            assert(out@ =~= old(out)@ + target_text(host@, port));
        },
    }
}

/// Render a target back the way a rule file spells it.
pub fn join_target(host: &str, port: Option<u16>) -> (r: String)
    ensures
        r@ == target_text(host@, port),
{
    let h = chars_of(host);
    let mut out: Vec<char> = Vec::new();
    push_target(&mut out, &h, port);
    assert(out@ =~= target_text(host@, port));
    string_of(&out)
}

/// A name or address that a rule can spell with any port: no white space at
/// either end, no opening bracket in front, and no colon unless it is an IPv6
/// literal.
pub open spec fn is_spellable(host: Seq<char>) -> bool {
    &&& is_trimmed(host)
    &&& host.len() > 0 ==> host[0] != '['
    &&& is_v6(host) || !holds(host, just(':'))
}

/// A written port reads back.
proof fn lemma_port_back(p: u16)
    ensures
        port_of(dec(p as nat)) == Some(p),
        dec(p as nat).len() > 0,
        forall|i: int| 0 <= i < dec(p as nat).len() ==> is_digit(#[trigger] dec(p as nat)[i], 10),
{
    lemma_number_of_dec(p as nat, 65535);
    lemma_digits_value(p as nat, 10);
    let d = dec(p as nat);
    assert(all_digits(d, 10));
}

/// A destination put together and taken apart again is the same destination.
#[verifier::rlimit(60)]
#[verifier::spinoff_prover]
pub proof fn lemma_target_round_trip(host: Seq<char>, port: Option<u16>)
    requires
        is_spellable(host),
    ensures
        target_of(target_text(host, port)) == (host, port),
{
    let s = target_text(host, port);
    match port {
        None => {
            lemma_trim_fixed(host);
            if !is_v6(host) {
                lemma_find(host, just(':'));
            }
        },
        Some(p) => {
            lemma_port_back(p);
            let d = dec(p as nat);
            assert(s.last() == d.last());
            assert(is_digit(d[d.len() - 1], 10));
            if is_v6(host) {
                assert(s[0] == '[');
                lemma_trim_fixed(s);
                let rest = s.skip(1);
                assert(rest =~= host + seq![']', ':'] + d);
                assert forall|j: int| 0 <= j < host.len() implies !just(']')(
                    #[trigger] rest[j],
                ) by {
                    lemma_v6_chars(host, j);
                    assert(rest[j] == host[j]);
                }
                assert(rest[host.len() as int] == ']');
                assert(just(']')(rest[host.len() as int]));
                lemma_find_is(rest, just(']'), host.len() as int);
                assert(rest.take(host.len() as int) =~= host);
                let after = rest.skip(host.len() as int + 1);
                assert(after =~= seq![':'] + d);
                assert(after.skip(1) =~= d);
            } else {
                if host.len() > 0 {
                    assert(s[0] == host[0]);
                } else {
                    assert(s[0] == ':');
                }
                lemma_trim_fixed(s);
                assert(!holds(d, just(':'))) by {
                    assert forall|i: int| 0 <= i < d.len() implies !just(':')(#[trigger] d[i]) by {
                        assert(is_digit(d[i], 10));
                    }
                }
                lemma_one_colon_is_not_v6(host, d);
                assert forall|j: int| 0 <= j < host.len() implies !just(':')(
                    #[trigger] s[j],
                ) by {
                    assert(s[j] == host[j]);
                    assert(!just(':')(host[j]));
                }
                lemma_find_is(s, just(':'), host.len() as int);
                assert(s.take(host.len() as int) =~= host);
                assert(s.skip(host.len() as int + 1) =~= d);
            }
        },
    }
}

} // verus!
