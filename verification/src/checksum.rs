//! The internet checksum: a ones-complement sum over 16-bit words.
use crate::bytes::{be16, bytes16};
use vstd::prelude::*;

verus! {

/// The words of a message added up; an odd last byte counts as the high half of
/// a word.
pub open spec fn word_sum(b: Seq<u8>) -> nat
    decreases b.len(),
{
    if b.len() == 0 {
        0
    } else if b.len() == 1 {
        (b[0] * 256) as nat
    } else {
        be16(b, 0) as nat + word_sum(b.skip(2))
    }
}

/// A total with every carry out of 16 bits added back in: the residue modulo
/// 65535, with 65535 standing for any nonzero multiple.
pub open spec fn folded(total: nat) -> nat {
    if total == 0 {
        0
    } else {
        (((total - 1) % 65535) + 1) as nat
    }
}

/// The checksum of a message: the complement of its folded sum.
pub open spec fn checksum(b: Seq<u8>) -> u16 {
    (65535 - folded(word_sum(b))) as u16
}

/// The parts of a message, one after the other.
pub open spec fn joined(parts: Seq<&[u8]>) -> Seq<u8>
    decreases parts.len(),
{
    if parts.len() == 0 {
        Seq::empty()
    } else {
        joined(parts.drop_last()) + parts.last()@
    }
}

proof fn lemma_word_sum_pair(b: Seq<u8>, hi: u8, lo: u8)
    requires
        b.len() % 2 == 0,
    ensures
        word_sum(b.push(hi).push(lo)) == word_sum(b) + hi * 256 + lo,
        word_sum(b.push(hi)) == word_sum(b) + hi * 256,
    decreases b.len(),
{
    let one = b.push(hi);
    let two = one.push(lo);
    if b.len() == 0 {
        assert(two.skip(2) =~= Seq::<u8>::empty());
        assert(word_sum(two.skip(2)) == 0);
        assert(be16(two, 0) == hi * 256 + lo);
    } else {
        lemma_word_sum_pair(b.skip(2), hi, lo);
        assert(one.skip(2) =~= b.skip(2).push(hi));
        assert(two.skip(2) =~= b.skip(2).push(hi).push(lo));
        assert(be16(one, 0) == be16(b, 0));
        assert(be16(two, 0) == be16(b, 0));
    }
}

/// The sum splits at any even position.
pub proof fn lemma_word_sum_split(a: Seq<u8>, z: Seq<u8>)
    requires
        a.len() % 2 == 0,
    ensures
        word_sum(a + z) == word_sum(a) + word_sum(z),
    decreases a.len(),
{
    if a.len() == 0 {
        assert(a + z =~= z);
    } else {
        lemma_word_sum_split(a.skip(2), z);
        assert((a + z).skip(2) =~= a.skip(2) + z);
        assert(be16(a + z, 0) == be16(a, 0));
    }
}

proof fn lemma_folded_step(total: nat, w: nat)
    requires
        w <= 65535,
    ensures
        folded(total) <= 65535,
        folded(total + w) == (if folded(total) + w > 65535 {
            (folded(total) + w - 65535) as nat
        } else {
            folded(total) + w
        }),
{
    if total > 0 {
        let t = total - 1;
        assert((t + w) % 65535 == ((t % 65535) + w) % 65535) by {
            vstd::arithmetic::div_mod::lemma_add_mod_noop(t as int, w as int, 65535);
            vstd::arithmetic::div_mod::lemma_add_mod_noop((t as int) % 65535, w as int, 65535);
            vstd::arithmetic::div_mod::lemma_mod_twice(t as int, 65535);
        }
    }
}

/// Writing the checksum of a message over a zero field at an even position makes
/// the checksum of the whole come out as zero: that is how a receiver tells that
/// it is right.
pub proof fn lemma_filled_in(a: Seq<u8>, z: Seq<u8>)
    requires
        a.len() % 2 == 0,
    ensures
        checksum(a + bytes16(checksum(a + bytes16(0) + z)) + z) == 0,
{
    let zero = bytes16(0);
    let c = checksum(a + zero + z);
    let field = bytes16(c);
    let total = word_sum(a + zero + z);
    lemma_folded_step(total, 0);
    assert(c == 65535 - folded(total));
    assert(a + zero + z =~= a + (zero + z));
    assert(a + field + z =~= a + (field + z));
    lemma_word_sum_split(a, zero + z);
    lemma_word_sum_split(a, field + z);
    lemma_word_sum_split(zero, z);
    lemma_word_sum_split(field, z);
    assert(zero.skip(2) =~= Seq::<u8>::empty());
    assert(field.skip(2) =~= Seq::<u8>::empty());
    assert(word_sum(zero) == 0) by {
        assert(be16(zero, 0) == 0);
        assert(word_sum(zero.skip(2)) == 0);
    }
    assert(word_sum(field) == c as nat) by {
        assert(be16(field, 0) == c);
        assert(word_sum(field.skip(2)) == 0);
    }
    assert(word_sum(a + field + z) == total + c as nat);
    lemma_folded_step(total, c as nat);
}

/// The ones-complement checksum of a message given in parts. A part may have odd
/// length: the sum is over the concatenation, not over each part by itself.
pub fn csum(parts: &[&[u8]]) -> (r: u16)
    ensures
        r == checksum(joined(parts@)),
{
    let mut sum: u32 = 0;
    let mut carry: Option<u8> = None;
    let ghost mut seen: Seq<u8> = Seq::empty();
    let n: usize = parts.len();
    proof {
        assert(parts@.take(0) =~= Seq::<&[u8]>::empty());
    }
    for p in 0..n
        invariant
            n == parts@.len(),
            seen == joined(parts@.take(p as int)),
            holds_sum(seen, sum, carry),
    {
        let part: &[u8] = parts[p];
        let m: usize = part.len();
        let ghost start = seen;
        proof {
            assert(start + part@.take(0) =~= start);
        }
        for i in 0..m
            invariant
                m == part@.len(),
                seen == start + part@.take(i as int),
                holds_sum(seen, sum, carry),
        {
            let b: u8 = part[i];
            let ghost before = seen;
            let ghost had = sum;
            match carry {
                Some(hi) => {
                    let w: u32 = hi as u32 * 256 + b as u32;
                    proof {
                        lemma_word_sum_pair(before.drop_last(), hi, b);
                        lemma_folded_step(word_sum(before.drop_last()), w as nat);
                        assert(before.drop_last().push(hi) =~= before);
                    }
                    sum = sum + w;
                    if sum > 65535 {
                        sum = sum - 65535;
                    }
                    carry = None;
                },
                None => {
                    carry = Some(b);
                },
            }
            proof {
                seen = before.push(b);
                assert(seen.drop_last() =~= before);
                assert(start + part@.take(i + 1) =~= seen);
            }
        }
        proof {
            assert(part@.take(m as int) =~= part@);
            assert(parts@.take(p + 1).drop_last() =~= parts@.take(p as int));
        }
    }
    proof {
        assert(parts@.take(n as int) =~= parts@);
    }
    if let Some(hi) = carry {
        let w: u32 = hi as u32 * 256;
        proof {
            lemma_word_sum_pair(seen.drop_last(), hi, 0);
            lemma_folded_step(word_sum(seen.drop_last()), w as nat);
            assert(seen.drop_last().push(hi) =~= seen);
        }
        sum = sum + w;
        if sum > 65535 {
            sum = sum - 65535;
        }
    }
    (65535 - sum) as u16
}

/// The checksum of a message in one piece.
pub fn csum_one(message: &[u8]) -> (r: u16)
    ensures
        r == checksum(message@),
{
    let parts: Vec<&[u8]> = vec![message];
    proof {
        assert(parts@.drop_last() =~= Seq::<&[u8]>::empty());
        assert(joined(parts@.drop_last()) =~= Seq::<u8>::empty());
        assert(joined(parts@) =~= message@);
    }
    csum(parts.as_slice())
}

/// A running sum, with the last byte held back while it has no partner.
pub open spec fn holds_sum(seen: Seq<u8>, sum: u32, carry: Option<u8>) -> bool {
    &&& sum <= 65535
    &&& match carry {
        Some(hi) => {
            &&& seen.len() % 2 == 1
            &&& seen.last() == hi
            &&& sum == folded(word_sum(seen.drop_last()))
        },
        None => {
            &&& seen.len() % 2 == 0
            &&& sum == folded(word_sum(seen))
        },
    }
}

} // verus!
