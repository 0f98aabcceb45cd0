//! Text inside JSON strings.
use crate::number::{digit, digit_char, digit_value, lemma_digit};
use crate::text::{chars_of, push_text, string_of};
use vstd::prelude::*;

verus! {

/// How one character is written inside a JSON string.
pub open spec fn escaped(c: char) -> Seq<char> {
    if c == '"' {
        seq!['\\', '"']
    } else if c == '\\' {
        seq!['\\', '\\']
    } else if c == '\n' {
        seq!['\\', 'n']
    } else if c == '\r' {
        seq!['\\', 'r']
    } else if c == '\t' {
        seq!['\\', 't']
    } else if (c as u32) < 0x20 {
        seq!['\\', 'u', '0', '0', digit((c as u32 / 16) as nat), digit((c as u32 % 16) as nat)]
    } else {
        seq![c]
    }
}

/// How a text is written inside a JSON string.
pub open spec fn json_text(s: Seq<char>) -> Seq<char>
    decreases s.len(),
{
    if s.len() == 0 {
        Seq::empty()
    } else {
        json_text(s.drop_last()) + escaped(s.last())
    }
}

/// Append a text the way it is written inside a JSON string.
pub fn push_json(out: &mut Vec<char>, s: &str)
    ensures
        final(out)@ == old(out)@ + json_text(s@),
{
    let c = chars_of(s);
    let n: usize = c.len();
    let ghost start = out@;
    assert(c@.take(0) =~= Seq::<char>::empty());
    assert(start + json_text(c@.take(0)) =~= start);
    for i in 0..n
        invariant
            n == c@.len(),
            out@ == start + json_text(c@.take(i as int)),
    {
        let x = c[i];
        let ghost before = out@;
        if x == '"' {
            out.push('\\');
            out.push('"');
        } else if x == '\\' {
            out.push('\\');
            out.push('\\');
        } else if x == '\n' {
            out.push('\\');
            out.push('n');
        } else if x == '\r' {
            out.push('\\');
            out.push('r');
        } else if x == '\t' {
            out.push('\\');
            out.push('t');
        } else if (x as u32) < 0x20 {
            let code: u32 = x as u32;
            out.push('\\');
            out.push('u');
            out.push('0');
            out.push('0');
            out.push(digit_char((code / 16) as u8));
            out.push(digit_char((code % 16) as u8));
        } else {
            out.push(x);
        }
        proof {
            assert(out@ =~= before + escaped(x));
            assert(c@.take(i + 1).drop_last() =~= c@.take(i as int));
            assert(out@ =~= start + json_text(c@.take(i + 1)));
        }
    }
    assert(c@.take(n as int) =~= c@);
}

/// A text the way it is written inside a JSON string.
pub fn json_escape(s: &str) -> (r: String)
    ensures
        r@ == json_text(s@),
{
    let mut out: Vec<char> = Vec::new();
    push_json(&mut out, s);
    assert(out@ =~= json_text(s@));
    string_of(&out)
}

/// An optional text as a JSON value: a string, or null.
pub open spec fn json_option(s: Option<Seq<char>>) -> Seq<char> {
    match s {
        Some(t) => seq!['"'] + json_text(t) + seq!['"'],
        None => "null"@,
    }
}

/// Append an optional text as a JSON value.
pub fn push_json_option(out: &mut Vec<char>, s: &Option<String>)
    ensures
        final(out)@ == old(out)@ + json_option(
            match *s {
                Some(t) => Some(t@),
                None => None,
            },
        ),
{
    match s {
        Some(t) => {
            out.push('"');
            push_json(out, t.as_str());
            out.push('"');
            assert(out@ =~= old(out)@ + json_option(Some(t@)));
        },
        None => push_text(out, "null"),
    }
}

// ---------------------------------------------------------------------------
// Reading back.
// ---------------------------------------------------------------------------

/// What a JSON reader makes of the inside of a string: None if it ends early,
/// holds a bare quote or a control character, or an escape that is not one.
pub open spec fn unescaped(t: Seq<char>) -> Option<Seq<char>>
    decreases t.len(),
{
    if t.len() == 0 {
        Some(Seq::empty())
    } else if t[0] == '"' || (t[0] as u32) < 0x20 {
        None
    } else if t[0] != '\\' {
        match unescaped(t.skip(1)) {
            Some(rest) => Some(seq![t[0]] + rest),
            None => None,
        }
    } else if t.len() < 2 {
        None
    } else if t[1] == 'u' {
        if t.len() >= 6 && t[2] == '0' && t[3] == '0' && digit_value(t[4]) is Some && digit_value(
            t[5],
        ) is Some {
            match unescaped(t.skip(6)) {
                Some(rest) => Some(
                    seq![((digit_value(t[4])->0 * 16 + digit_value(t[5])->0) as u32) as char]
                        + rest,
                ),
                None => None,
            }
        } else {
            None
        }
    } else {
        let c = if t[1] == 'n' {
            Some('\n')
        } else if t[1] == 'r' {
            Some('\r')
        } else if t[1] == 't' {
            Some('\t')
        } else if t[1] == '"' || t[1] == '\\' {
            Some(t[1])
        } else {
            None
        };
        match (c, unescaped(t.skip(2))) {
            (Some(x), Some(rest)) => Some(seq![x] + rest),
            _ => None,
        }
    }
}

proof fn lemma_one_back(c: char, rest: Seq<char>)
    requires
        unescaped(rest) is Some,
    ensures
        unescaped(escaped(c) + rest) == Some(seq![c] + unescaped(rest)->0),
{
    let e = escaped(c);
    let t = e + rest;
    if c == '"' || c == '\\' || c == '\n' || c == '\r' || c == '\t' {
        assert(t.skip(2) =~= rest);
    } else if (c as u32) < 0x20 {
        let hi = (c as u32 / 16) as nat;
        let lo = (c as u32 % 16) as nat;
        lemma_digit(hi, 16);
        lemma_digit(lo, 16);
        assert(t.skip(6) =~= rest);
        assert(t[4] == digit(hi) && t[5] == digit(lo));
        assert(hi * 16 + lo == c as u32);
    } else {
        assert(t.skip(1) =~= rest);
    }
}

proof fn lemma_front(s: Seq<char>)
    requires
        s.len() > 0,
    ensures
        json_text(s) == escaped(s[0]) + json_text(s.skip(1)),
    decreases s.len(),
{
    if s.len() == 1 {
        assert(s.drop_last() =~= Seq::<char>::empty());
        assert(s.skip(1) =~= Seq::<char>::empty());
        assert(json_text(s) =~= escaped(s[0]) + json_text(s.skip(1)));
    } else {
        lemma_front(s.drop_last());
        assert(s.skip(1).drop_last() =~= s.drop_last().skip(1));
        assert(s.skip(1).last() == s.last());
        assert(json_text(s) =~= escaped(s[0]) + json_text(s.skip(1)));
    }
}

/// A JSON reader gets back exactly the text that was written, whatever is in it.
pub proof fn lemma_json_back(s: Seq<char>)
    ensures
        unescaped(json_text(s)) == Some(s),
    decreases s.len(),
{
    if s.len() > 0 {
        lemma_front(s);
        lemma_json_back(s.skip(1));
        lemma_one_back(s[0], json_text(s.skip(1)));
        assert(seq![s[0]] + s.skip(1) =~= s);
    } else {
        assert(s =~= Seq::<char>::empty());
    }
}

} // verus!
