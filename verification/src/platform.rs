//! What is taken from the standard library without proof.
//!
//! Each item names the function it stands for and says what is believed of it.
//! Nothing else in the crate is believed without proof.
use vstd::prelude::*;
use vstd::utf8::{decode_utf8, is_ascii_chars, valid_utf8};

verus! {

/// `String::push` appends the given character to the end of the string.
pub assume_specification[ String::push ](s: &mut String, c: char)
    ensures
        final(s)@ == old(s)@.push(c),
;

/// The lower-case form of text that is not all ASCII, as `str::to_lowercase`
/// gives it.
pub uninterp spec fn unicode_lowercase(s: Seq<char>) -> Seq<char>;

/// The ASCII capitals map to the ASCII small letters; nothing else changes.
pub open spec fn ascii_lower_char(c: char) -> char {
    if 'A' <= c && c <= 'Z' {
        ((c as u32) + 32) as char
    } else {
        c
    }
}

/// ASCII text with its capitals replaced, position by position.
pub open spec fn ascii_lowercase(s: Seq<char>) -> Seq<char> {
    Seq::new(s.len(), |i: int| ascii_lower_char(s[i]))
}

/// The lower-case form of a text.
pub open spec fn lowercase(s: Seq<char>) -> Seq<char> {
    if is_ascii_chars(s) {
        ascii_lowercase(s)
    } else {
        unicode_lowercase(s)
    }
}

/// Calls `str::to_lowercase`. ASCII text comes back with `A` to `Z` replaced
/// by `a` to `z` and everything else unchanged; for other text the result is
/// only named, because the Unicode case tables are too large to restate.
#[verifier::external_body]
fn std_lowercase(s: &str) -> (r: String)
    ensures
        is_ascii_chars(s@) ==> r@ == ascii_lowercase(s@),
        !is_ascii_chars(s@) ==> r@ == unicode_lowercase(s@),
{
    s.to_lowercase()
}

/// The lower-case form of a string.
pub fn to_lower(s: &str) -> (r: String)
    ensures
        r@ == lowercase(s@),
{
    std_lowercase(s)
}

/// The text that `String::from_utf8_lossy` makes of bytes that are not valid
/// UTF-8.
pub uninterp spec fn repaired_utf8(b: Seq<u8>) -> Seq<char>;

/// Bytes read as UTF-8, with replacement characters where that fails.
pub open spec fn lossy(b: Seq<u8>) -> Seq<char> {
    if valid_utf8(b) {
        decode_utf8(b)
    } else {
        repaired_utf8(b)
    }
}

/// Calls `String::from_utf8_lossy`. Valid UTF-8 is decoded; how invalid
/// sequences are replaced is only named.
#[verifier::external_body]
fn std_from_utf8_lossy(b: &[u8]) -> (r: String)
    ensures
        valid_utf8(b@) ==> r@ == decode_utf8(b@),
        !valid_utf8(b@) ==> r@ == repaired_utf8(b@),
{
    String::from_utf8_lossy(b).into_owned()
}

/// Bytes as a string, with replacement characters where they are not UTF-8.
pub fn to_text_lossy(b: &[u8]) -> (r: String)
    ensures
        r@ == lossy(b@),
{
    std_from_utf8_lossy(b)
}

/// Calls `std::time::SystemTime::now` and measures it against the Unix epoch:
/// whole seconds since then, or nothing for a clock set before it. The value
/// is whatever the clock says, so nothing is promised of it.
#[verifier::external_body]
pub(crate) fn unix_seconds() -> (r: Option<u64>) {
    std::time::SystemTime::now().duration_since(std::time::UNIX_EPOCH).ok().map(|d| d.as_secs())
}

/// Is this what the system clock was read as: whole seconds since the epoch, or
/// nothing for a clock set before it?
pub open(crate) spec fn is_clock_reading(r: Option<u64>) -> bool {
    call_ensures(unix_seconds, (), r)
}

/// Lower-casing ASCII text twice changes nothing more, and the result is ASCII.
pub proof fn lemma_ascii_lowercase_again(s: Seq<char>)
    requires
        is_ascii_chars(s),
    ensures
        is_ascii_chars(lowercase(s)),
        lowercase(lowercase(s)) == lowercase(s),
{
    let t = ascii_lowercase(s);
    assert forall|i: int| 0 <= i < t.len() implies '\0' <= #[trigger] t[i] <= '\u{7f}' by {
        assert('\0' <= s[i] <= '\u{7f}');
    }
    assert(ascii_lowercase(t) =~= t);
}

} // verus!
