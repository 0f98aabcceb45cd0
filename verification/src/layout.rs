//! Laying out text in columns, and numbers with a sign.
use crate::number::{dec, push_dec};
use crate::text::{chars_of, push_chars};
use vstd::prelude::*;

verus! {

/// So many spaces.
pub open spec fn spaces(n: int) -> Seq<char> {
    Seq::new(
        if n > 0 {
            n as nat
        } else {
            0
        },
        |i: int| ' ',
    )
}

/// A text in a column at least `width` characters wide, at its left edge.
pub open spec fn left(s: Seq<char>, width: int) -> Seq<char> {
    s + spaces(width - s.len())
}

/// A text in a column at least `width` characters wide, at its right edge.
pub open spec fn right(s: Seq<char>, width: int) -> Seq<char> {
    spaces(width - s.len()) + s
}

/// A number in decimal, with a minus sign where it has one.
pub open spec fn signed(n: int) -> Seq<char> {
    if n < 0 {
        seq!['-'] + dec((-n) as nat)
    } else {
        dec(n as nat)
    }
}

fn push_spaces(out: &mut Vec<char>, n: usize)
    ensures
        final(out)@ == old(out)@ + spaces(n as int),
{
    let ghost start = out@;
    assert(start + spaces(0) =~= start);
    for i in 0..n
        invariant
            out@ == start + spaces(i as int),
    {
        out.push(' ');
        assert(start + spaces(i + 1) =~= (start + spaces(i as int)).push(' '));
    }
}

/// Append a text at the left edge of a column.
pub fn push_left(out: &mut Vec<char>, s: &[char], width: usize)
    ensures
        final(out)@ == old(out)@ + left(s@, width as int),
{
    push_chars(out, s);
    if s.len() < width {
        push_spaces(out, width - s.len());
    }
    assert(out@ =~= old(out)@ + left(s@, width as int));
}

/// Append a text at the left edge of a column.
pub fn push_left_text(out: &mut Vec<char>, s: &str, width: usize)
    ensures
        final(out)@ == old(out)@ + left(s@, width as int),
{
    push_left(out, &chars_of(s), width);
}

/// Append a text at the right edge of a column.
pub fn push_right(out: &mut Vec<char>, s: &[char], width: usize)
    ensures
        final(out)@ == old(out)@ + right(s@, width as int),
{
    if s.len() < width {
        push_spaces(out, width - s.len());
    }
    push_chars(out, s);
    assert(out@ =~= old(out)@ + right(s@, width as int));
}

/// Append a number with its sign.
pub fn push_signed(out: &mut Vec<char>, n: i32)
    ensures
        final(out)@ == old(out)@ + signed(n as int),
{
    if n < 0 {
        out.push('-');
        let m: u64 = (-(n as i64)) as u64;
        push_dec(out, m);
    } else {
        push_dec(out, n as u64);
    }
    assert(out@ =~= old(out)@ + signed(n as int));
}

} // verus!
