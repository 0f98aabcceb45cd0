//! What stands where in the messages to and from the kernel, and what checksums add
//! up to.
use crate::addr::IpAddr;
use crate::bytes::{be16, bytes16, lemma_octets_back, octets, v4_at, v6_at};
use crate::checksum::{checksum, folded, word_sum};
use crate::kernattr::{
    address_field, family, native32, native_at, query_of, reply_owner, until_zero, verdict_of,
    zero_bytes, ByteOrder,
};
use crate::platform::lossy;
use crate::procinfo::{known_path, Tuple};
use vstd::prelude::*;

verus! {

// ---------------------------------------------------------------------------
// Checksums.
// ---------------------------------------------------------------------------

/// A checksum is over the sum of the 16-bit words of its bytes, most significant
/// byte first; a last byte that is left over counts as if a zero followed it.
pub proof fn lemma_words_are_summed(b: Seq<u8>, hi: u8, lo: u8)
    ensures
        word_sum(Seq::empty()) == 0,
        word_sum(seq![hi]) == hi * 256,
        word_sum(seq![hi, lo] + b) == hi * 256 + lo + word_sum(b),
{
    let c = seq![hi, lo] + b;
    assert(c.skip(2) =~= b);
    assert(be16(c, 0) == hi * 256 + lo);
}

/// A checksum is what is missing from the sum to a multiple of 65535, and it is all
/// ones exactly for a sum of zero: a message that holds its checksum adds up.
pub proof fn lemma_checksums_complete_the_sum(b: Seq<u8>)
    ensures
        (word_sum(b) + checksum(b)) % 65535 == 0,
        checksum(b) == 65535 <==> word_sum(b) == 0,
{
    let total = word_sum(b) as int;
    if total > 0 {
        let f = (total - 1) % 65535 + 1;
        assert(folded(word_sum(b)) == f);
        assert(checksum(b) == 65535 - f);
        let q = (total - 1) / 65535;
        assert(total - 1 == q * 65535 + (total - 1) % 65535) by (nonlinear_arith)
            requires
                q == (total - 1) / 65535,
        ;
        assert(total + (65535 - f) == (q + 1) * 65535);
        assert(((q + 1) * 65535) % 65535 == 0) by (nonlinear_arith);
    }
}

// ---------------------------------------------------------------------------
// Messages to the kernel.
// ---------------------------------------------------------------------------

/// Numbers in the order of the machine, byte by byte.
pub proof fn lemma_machine_order(x: u32, b: Seq<u8>, i: int)
    ensures
        ({
            let little = native32(ByteOrder::Little, x);
            let big = native32(ByteOrder::Big, x);
            &&& little.len() == 4
            &&& big.len() == 4
            &&& little[0] + little[1] * 0x100 + little[2] * 0x1_0000 + little[3] * 0x100_0000 == x
            &&& big[3] + big[2] * 0x100 + big[1] * 0x1_0000 + big[0] * 0x100_0000 == x
        }),
        native_at(ByteOrder::Little, b, i) == b[i] + b[i + 1] * 0x100 + b[i + 2] * 0x1_0000 + b[i
            + 3] * 0x100_0000,
        native_at(ByteOrder::Big, b, i) == b[i + 3] + b[i + 2] * 0x100 + b[i + 1] * 0x1_0000 + b[i]
            * 0x100_0000,
{
}

proof fn lemma_address_fields(b: Seq<u8>, i: int, a: IpAddr)
    requires
        0 <= i,
        i + 16 <= b.len(),
        b.subrange(i, i + 16) == address_field(a),
    ensures
        a is V4 ==> a == v4_at(b, i),
        a is V6 ==> a == v6_at(b, i),
        a is V4 ==> forall|j: int| 4 <= j < 16 ==> #[trigger] b[i + j] == 0,
{
    let f = address_field(a);
    let n = octets(a).len() as int;
    assert(f.len() == 16);
    assert forall|j: int| 0 <= j < 16 implies #[trigger] b[i + j] == f[j] by {
        assert(b.subrange(i, i + 16)[j] == b[i + j]);
    }
    assert(b.subrange(i, i + n) =~= octets(a)) by {
        assert forall|j: int| 0 <= j < n implies #[trigger] b.subrange(i, i + n)[j] == octets(
            a,
        )[j] by {
            assert(b[i + j] == f[j]);
        }
    }
    lemma_octets_back(b, i, a);
}

proof fn lemma_eight_parts(
    v: Seq<u8>,
    f: Seq<u8>,
    s: Seq<u8>,
    d: Seq<u8>,
    z: Seq<u8>,
    a: Seq<u8>,
    b: Seq<u8>,
    r: Seq<u8>,
)
    requires
        v.len() == 4,
        f.len() == 2,
        s.len() == 2,
        d.len() == 2,
        z.len() == 2,
        a.len() == 16,
        b.len() == 16,
    ensures
        ({
            let q = v + f + s + d + z + a + b + r;
            &&& q.len() == 44 + r.len()
            &&& q[0] == v[0] && q[1] == v[1] && q[2] == v[2] && q[3] == v[3]
            &&& q[4] == f[0] && q[5] == f[1]
            &&& q[6] == s[0] && q[7] == s[1]
            &&& q[8] == d[0] && q[9] == d[1]
            &&& q.subrange(12, 28) == a
            &&& q.subrange(28, 44) == b
            &&& forall|i: int| 44 <= i < q.len() ==> #[trigger] q[i] == r[i - 44]
        }),
{
    let q = v + f + s + d + z + a + b + r;
    assert(q.subrange(12, 28) =~= a);
    assert(q.subrange(28, 44) =~= b);
}

proof fn lemma_query_fields(order: ByteOrder, t: Tuple, q: Seq<u8>)
    requires
        q.len() == 1108,
        q[0] == native32(order, 1)[0],
        q[1] == native32(order, 1)[1],
        q[2] == native32(order, 1)[2],
        q[3] == native32(order, 1)[3],
        q.subrange(12, 28) == address_field(t.src),
        q.subrange(28, 44) == address_field(t.dst),
        t.src is V4 <==> t.dst is V4,
    ensures
        native_at(order, q, 0) == 1,
        t.src is V4 ==> t.src == v4_at(q, 12) && t.dst == v4_at(q, 28),
        t.src is V6 ==> t.src == v6_at(q, 12) && t.dst == v6_at(q, 28),
{
    lemma_address_fields(q, 12, t.src);
    lemma_address_fields(q, 28, t.dst);
}

/// Where the two ends of a flow stand in the question about it: the version, the
/// family, the protocol, both ports, both addresses, and nothing else.
#[verifier::rlimit(40)]
#[verifier::spinoff_prover]
pub proof fn lemma_questions_to_the_kernel(order: ByteOrder, t: Tuple)
    ensures
        query_of(order, t) is Some <==> (t.proto == 6 || t.proto == 17) && (t.src is V4
            <==> t.dst is V4),
        query_of(order, t) matches Some(q) ==> {
            &&& q.len() == 1108
            &&& native_at(order, q, 0) == 1
            &&& q[4] == (if t.src is V4 {
                4u8
            } else {
                6u8
            })
            &&& q[5] == t.proto
            &&& q[6] * 256 + q[7] == t.sport
            &&& q[8] * 256 + q[9] == t.dport
            &&& t.src is V4 ==> t.src == v4_at(q, 12) && t.dst == v4_at(q, 28)
            &&& t.src is V6 ==> t.src == v6_at(q, 12) && t.dst == v6_at(q, 28)
            &&& forall|i: int| 44 <= i < 1108 ==> #[trigger] q[i] == 0
        },
{
    if let Some(q) = query_of(order, t) {
        let v = native32(order, 1);
        let s = bytes16(t.sport);
        let d = bytes16(t.dport);
        assert(v.len() == 4 && s.len() == 2 && d.len() == 2);
        assert(address_field(t.src).len() == 16 && address_field(t.dst).len() == 16);
        let f = seq![family(t.src), t.proto];
        lemma_eight_parts(
            v,
            f,
            s,
            d,
            zero_bytes(2),
            address_field(t.src),
            address_field(t.dst),
            zero_bytes(1064),
        );
        assert(q == v + f + s + d + zero_bytes(2) + address_field(t.src) + address_field(t.dst)
            + zero_bytes(1064));
        lemma_query_fields(order, t, q);
    }
}

proof fn lemma_verdict_parts(
    v: Seq<u8>,
    f: Seq<u8>,
    d: Seq<u8>,
    a: Seq<u8>,
    w: Seq<u8>,
    z: Seq<u8>,
    p: Seq<u8>,
    r: Seq<u8>,
)
    requires
        v.len() == 4,
        f.len() == 2,
        d.len() == 2,
        a.len() == 16,
        w.len() == 1,
        z.len() == 3,
    ensures
        ({
            let m = v + f + d + a + w + z + p + r;
            &&& m.len() == 28 + p.len() + r.len()
            &&& m[0] == v[0] && m[1] == v[1] && m[2] == v[2] && m[3] == v[3]
            &&& m[4] == f[0] && m[5] == f[1]
            &&& m[6] == d[0] && m[7] == d[1]
            &&& m.subrange(8, 24) == a
            &&& m[24] == w[0]
            &&& m.subrange(28, 28 + p.len() as int) == p
            &&& forall|i: int| 28 + p.len() <= i < m.len() ==> #[trigger] m[i] == r[i - 28
                - p.len()]
        }),
{
    let m = v + f + d + a + w + z + p + r;
    assert(m.subrange(8, 24) =~= a);
    assert(m.subrange(28, 28 + p.len() as int) =~= p);
}

proof fn lemma_verdict_fields(order: ByteOrder, dst: IpAddr, m: Seq<u8>)
    requires
        m.len() == 1052,
        m[0] == native32(order, 1)[0],
        m[1] == native32(order, 1)[1],
        m[2] == native32(order, 1)[2],
        m[3] == native32(order, 1)[3],
        m.subrange(8, 24) == address_field(dst),
    ensures
        native_at(order, m, 0) == 1,
        dst is V4 ==> dst == v4_at(m, 8),
        dst is V6 ==> dst == v6_at(m, 8),
{
    lemma_address_fields(m, 8, dst);
}

/// Where a settled verdict stands in its message: the version, the family, the
/// protocol, the port, the address, what was decided, and the path with zeros
/// behind it. A path that is empty or too long is not sent.
#[verifier::rlimit(40)]
#[verifier::spinoff_prover]
pub proof fn lemma_verdicts_to_the_kernel(
    order: ByteOrder,
    proto: u8,
    dst: IpAddr,
    dport: u16,
    path: Seq<u8>,
    allow: bool,
)
    ensures
        verdict_of(order, proto, dst, dport, path, allow) is Some <==> (proto == 6 || proto == 17)
            && 0 < path.len() < 1024,
        verdict_of(order, proto, dst, dport, path, allow) matches Some(m) ==> {
            &&& m.len() == 1052
            &&& native_at(order, m, 0) == 1
            &&& m[4] == (if dst is V4 {
                4u8
            } else {
                6u8
            })
            &&& m[5] == proto
            &&& m[6] * 256 + m[7] == dport
            &&& dst is V4 ==> dst == v4_at(m, 8)
            &&& dst is V6 ==> dst == v6_at(m, 8)
            &&& m[24] == (if allow {
                1u8
            } else {
                2u8
            })
            &&& m.subrange(28, 28 + path.len() as int) == path
            &&& forall|i: int| 28 + path.len() <= i < 1052 ==> #[trigger] m[i] == 0
        },
{
    if let Some(m) = verdict_of(order, proto, dst, dport, path, allow) {
        let v = native32(order, 1);
        let d = bytes16(dport);
        let f = seq![family(dst), proto];
        let w = seq![
            if allow {
                1u8
            } else {
                2u8
            },
        ];
        assert(v.len() == 4 && d.len() == 2);
        assert(address_field(dst).len() == 16);
        lemma_verdict_parts(
            v,
            f,
            d,
            address_field(dst),
            w,
            zero_bytes(3),
            path,
            zero_bytes(1024 - path.len()),
        );
        assert(m == v + f + d + address_field(dst) + w + zero_bytes(3) + path + zero_bytes(
            1024 - path.len(),
        ));
        lemma_verdict_fields(order, dst, m);
    }
}

/// The text in a field ends at its first zero, or with the field.
pub proof fn lemma_fields_end_at_zero(b: Seq<u8>)
    ensures
        ({
            let t = until_zero(b);
            &&& t.len() <= b.len()
            &&& t == b.subrange(0, t.len() as int)
            &&& forall|i: int| 0 <= i < t.len() ==> #[trigger] t[i] != 0
            &&& t.len() < b.len() ==> b[t.len() as int] == 0
        }),
    decreases b.len(),
{
    let t = until_zero(b);
    if b.len() > 0 && b[0] != 0 {
        let r = b.skip(1);
        lemma_fields_end_at_zero(r);
        let u = until_zero(r);
        assert(t =~= seq![b[0]] + u);
        assert forall|i: int| 0 <= i < t.len() implies #[trigger] t[i] != 0 && t[i] == b[i] by {
            if i > 0 {
                assert(t[i] == u[i - 1]);
                assert(u[i - 1] == r.subrange(0, u.len() as int)[i - 1]);
                assert(r[i - 1] == b[i]);
            }
        }
        assert(t =~= b.subrange(0, t.len() as int));
        if t.len() < b.len() {
            assert(r[u.len() as int] == b[t.len() as int]);
        }
    } else {
        assert(t =~= b.subrange(0, 0));
    }
}

/// A reply names an owner exactly if it says that it found one: its process, its
/// command and its binary, each where it stands.
pub proof fn lemma_replies_of_the_kernel(order: ByteOrder, b: Seq<u8>)
    requires
        b.len() == 1108,
    ensures
        b[44] == 0 ==> reply_owner(order, b) is None,
        b[44] != 0 ==> (reply_owner(order, b) matches Some((pid, name, path)) && pid == native_at(
            order,
            b,
            48,
        ) as i32 && name == lossy(until_zero(b.subrange(60, 84))) && path == known_path(
            lossy(until_zero(b.subrange(84, 1108))),
            name,
        )),
{
}

/// A message in parts is summed as if it were in one.
pub proof fn lemma_parts_are_joined(parts: Seq<&[u8]>, last: &[u8])
    ensures
        crate::checksum::joined(Seq::<&[u8]>::empty()) == Seq::<u8>::empty(),
        crate::checksum::joined(parts.push(last)) == crate::checksum::joined(parts) + last@,
{
    assert(parts.push(last).drop_last() =~= parts);
}

} // verus!
