//! Numbers as text.
use vstd::prelude::*;

verus! {

/// The value of a digit: `0` to `9`, then `a` to `f` in either case.
pub open spec fn digit_value(c: char) -> Option<nat> {
    if '0' <= c && c <= '9' {
        Some((c as u32 - '0' as u32) as nat)
    } else if 'a' <= c && c <= 'f' {
        Some((c as u32 - 'a' as u32 + 10) as nat)
    } else if 'A' <= c && c <= 'F' {
        Some((c as u32 - 'A' as u32 + 10) as nat)
    } else {
        None
    }
}

/// Is this a digit in the given base?
pub open spec fn is_digit(c: char, radix: nat) -> bool {
    digit_value(c) is Some && digit_value(c)->0 < radix
}

/// Is every character a digit in the given base?
pub open spec fn all_digits(s: Seq<char>, radix: nat) -> bool {
    forall|i: int| 0 <= i < s.len() ==> is_digit(#[trigger] s[i], radix)
}

/// The number a run of digits denotes, most significant digit first.
pub open spec fn value(s: Seq<char>, radix: nat) -> nat
    decreases s.len(),
{
    if s.len() == 0 {
        0
    } else {
        value(s.drop_last(), radix) * radix + digit_value(s.last())->0
    }
}

/// The digit for a value below sixteen; letters are small.
pub open spec fn digit(d: nat) -> char {
    if d < 10 {
        (d + '0' as u32) as char
    } else {
        (d - 10 + 'a' as u32) as char
    }
}

/// A number written out, with no leading zeros.
pub open spec fn digits(n: nat, radix: nat) -> Seq<char>
    decreases n,
    when radix >= 2
{
    if n < radix {
        seq![digit(n)]
    } else {
        proof {
            assert(n / radix < n) by (nonlinear_arith)
                requires
                    n >= radix,
                    radix >= 2,
            ;
        }
        digits(n / radix, radix).push(digit(n % radix))
    }
}

/// A number in decimal.
pub open spec fn dec(n: nat) -> Seq<char> {
    digits(n, 10)
}

/// The digit of a value has that value, and counts as a digit.
pub proof fn lemma_digit(d: nat, radix: nat)
    requires
        d < radix <= 16,
    ensures
        digit_value(digit(d)) == Some(d),
        is_digit(digit(d), radix),
        d > 0 ==> digit(d) != '0',
{
}

/// Reading back what was written gives the number.
pub proof fn lemma_digits_value(n: nat, radix: nat)
    requires
        2 <= radix <= 16,
    ensures
        value(digits(n, radix), radix) == n,
        all_digits(digits(n, radix), radix),
        digits(n, radix).len() > 0,
        n > 0 ==> digits(n, radix)[0] != '0',
        n == 0 ==> digits(n, radix).len() == 1,
    decreases n,
{
    if n < radix {
        lemma_digit(n, radix);
        let s = seq![digit(n)];
        assert(s.drop_last() =~= Seq::<char>::empty());
        assert(s.last() == digit(n));
        assert(value(s.drop_last(), radix) == 0);
        assert(0 * radix == 0) by (nonlinear_arith);
        assert(value(s, radix) == n);
        assert(all_digits(s, radix));
    } else {
        assert(n / radix < n && n / radix > 0) by (nonlinear_arith)
            requires
                n >= radix,
                radix >= 2,
        ;
        lemma_digits_value(n / radix, radix);
        assert(n % radix < radix) by (nonlinear_arith)
            requires
                radix >= 2,
        ;
        lemma_digit(n % radix, radix);
        let h = digits(n / radix, radix);
        let s = h.push(digit(n % radix));
        assert(s.drop_last() =~= h);
        assert((n / radix) * radix + n % radix == n) by (nonlinear_arith)
            requires
                radix >= 2,
        ;
        assert forall|i: int| 0 <= i < s.len() implies is_digit(#[trigger] s[i], radix) by {
            if i < h.len() {
                assert(s[i] == h[i]);
            }
        }
        assert(s[0] == h[0]);
    }
}

/// A number below sixty-five thousand takes at most four hexadecimal digits.
pub proof fn lemma_hex_len(n: nat)
    requires
        n < 0x1_0000,
    ensures
        digits(n, 16).len() <= 4,
{
    reveal_with_fuel(digits, 5);
}

/// A number below a thousand takes at most three decimal digits.
pub proof fn lemma_dec_len(n: nat)
    requires
        n < 1000,
    ensures
        dec(n).len() <= 3,
{
    reveal_with_fuel(digits, 4);
}

/// A longer run of digits denotes no smaller a number.
pub proof fn lemma_value_grows(s: Seq<char>, k: int, radix: nat)
    requires
        0 <= k <= s.len(),
        radix >= 1,
    ensures
        value(s.take(k), radix) <= value(s, radix),
    decreases s.len() - k,
{
    if k == s.len() {
        assert(s.take(k) =~= s);
    } else {
        lemma_value_grows(s, k + 1, radix);
        let t = s.take(k + 1);
        assert(t.drop_last() =~= s.take(k));
        let v = value(s.take(k), radix);
        assert(v <= v * radix) by (nonlinear_arith)
            requires
                radix >= 1,
        ;
    }
}

/// An unsigned decimal number no larger than `max`: one or more digits, with
/// an optional `+` in front.
pub open spec fn number_of(s: Seq<char>, max: nat) -> Option<nat> {
    let t = if s.len() > 0 && s[0] == '+' {
        s.skip(1)
    } else {
        s
    };
    if t.len() > 0 && all_digits(t, 10) && value(t, 10) <= max {
        Some(value(t, 10))
    } else {
        None
    }
}

/// A number written in decimal reads back.
pub proof fn lemma_number_of_dec(n: nat, max: nat)
    requires
        n <= max,
    ensures
        number_of(dec(n), max) == Some(n),
{
    lemma_digits_value(n, 10);
    let s = dec(n);
    assert(is_digit(s[0], 10));
}

/// The digit value of a character.
pub fn digit_of(c: char) -> (r: Option<u8>)
    ensures
        r is Some <==> digit_value(c) is Some,
        r is Some ==> r->0 == digit_value(c)->0 && r->0 < 16,
{
    if '0' <= c && c <= '9' {
        Some((c as u32 - 48) as u8)
    } else if 'a' <= c && c <= 'f' {
        Some((c as u32 - 97 + 10) as u8)
    } else if 'A' <= c && c <= 'F' {
        Some((c as u32 - 65 + 10) as u8)
    } else {
        None
    }
}

/// Read an unsigned decimal number no larger than `max`.
pub fn parse_number(s: &[char], max: u64) -> (r: Option<u64>)
    ensures
        r is Some <==> number_of(s@, max as nat) is Some,
        r is Some ==> r->0 == number_of(s@, max as nat)->0,
{
    let n: usize = s.len();
    let start: usize = if n > 0 && s[0] == '+' {
        1
    } else {
        0
    };
    let ghost t = if s@.len() > 0 && s@[0] == '+' {
        s@.skip(1)
    } else {
        s@
    };
    assert(t =~= s@.skip(start as int));
    if start == n {
        return None;
    }
    let mut acc: u64 = 0;
    let mut i: usize = start;
    assert(t.take(0) =~= Seq::<char>::empty());
    while i < n
        invariant
            n == s@.len(),
            start <= i <= n,
            start <= 1,
            t == s@.skip(start as int),
            acc <= max,
            acc == value(t.take(i - start), 10),
            forall|j: int| 0 <= j < i - start ==> is_digit(#[trigger] t[j], 10),
            number_of(s@, max as nat) == (if t.len() > 0 && all_digits(t, 10) && value(t, 10)
                <= max {
                Some(value(t, 10))
            } else {
                None
            }),
        decreases n - i,
    {
        assert(t[i - start] == s@[i as int]);
        match digit_of(s[i]) {
            Some(d) if d < 10 => {
                let wide: u128 = (acc as u128) * 10 + (d as u128);
                assert(t.take(i - start + 1).drop_last() =~= t.take(i - start));
                assert(t.take(i - start + 1).last() == s@[i as int]);
                assert(wide == value(t.take(i - start + 1), 10));
                if wide > max as u128 {
                    proof {
                        lemma_value_grows(t, i - start + 1, 10);
                    }
                    return None;
                }
                acc = wide as u64;
            },
            _ => {
                assert(!is_digit(t[i - start], 10));
                return None;
            },
        }
        i += 1;
    }
    assert(t.take(n - start) =~= t);
    Some(acc)
}

/// The character for a digit value below sixteen.
pub fn digit_char(d: u8) -> (r: char)
    requires
        d < 16,
    ensures
        r == digit(d as nat),
{
    if d < 10 {
        (48 + d) as char
    } else {
        (97 + (d - 10)) as char
    }
}

/// Append a number in the given base.
pub fn push_digits(out: &mut Vec<char>, n: u64, radix: u64)
    requires
        2 <= radix <= 16,
    ensures
        final(out)@ == old(out)@ + digits(n as nat, radix as nat),
    decreases n,
{
    if n < radix {
        out.push(digit_char(n as u8));
        assert(out@ =~= old(out)@ + digits(n as nat, radix as nat));
    } else {
        assert(n / radix < n && n % radix < radix) by (nonlinear_arith)
            requires
                n >= radix,
                radix >= 2,
        ;
        assert((n as nat) / (radix as nat) == n / radix && (n as nat) % (radix as nat) == n
            % radix);
        push_digits(out, n / radix, radix);
        out.push(digit_char((n % radix) as u8));
        assert(out@ =~= old(out)@ + digits(n as nat, radix as nat));
    }
}

/// Append a number in decimal.
pub fn push_dec(out: &mut Vec<char>, n: u64)
    ensures
        final(out)@ == old(out)@ + dec(n as nat),
{
    push_digits(out, n, 10);
}

} // verus!
