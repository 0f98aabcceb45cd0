//! Numbers and addresses in network byte order.
use crate::addr::IpAddr;
use vstd::prelude::*;

verus! {

/// The 16-bit number at position `i`.
pub open spec fn be16(b: Seq<u8>, i: int) -> u16 {
    (b[i] * 256 + b[i + 1]) as u16
}

/// The 32-bit number at position `i`.
pub open spec fn be32(b: Seq<u8>, i: int) -> u32 {
    (be16(b, i) * 65536 + be16(b, i + 2)) as u32
}

/// The two bytes of a 16-bit number.
pub open spec fn bytes16(x: u16) -> Seq<u8> {
    seq![(x / 256) as u8, (x % 256) as u8]
}

/// The four bytes of a 32-bit number.
pub open spec fn bytes32(x: u32) -> Seq<u8> {
    bytes16((x / 65536) as u16) + bytes16((x % 65536) as u16)
}

/// The IPv4 address at position `i`.
pub open spec fn v4_at(b: Seq<u8>, i: int) -> IpAddr {
    IpAddr::V4(b[i], b[i + 1], b[i + 2], b[i + 3])
}

/// The IPv6 address at position `i`.
pub open spec fn v6_at(b: Seq<u8>, i: int) -> IpAddr {
    IpAddr::V6(
        be16(b, i),
        be16(b, i + 2),
        be16(b, i + 4),
        be16(b, i + 6),
        be16(b, i + 8),
        be16(b, i + 10),
        be16(b, i + 12),
        be16(b, i + 14),
    )
}

/// The bytes of an address: four or sixteen of them.
pub open spec fn octets(a: IpAddr) -> Seq<u8> {
    match a {
        IpAddr::V4(a, b, c, d) => seq![a, b, c, d],
        IpAddr::V6(a, b, c, d, e, f, g, h) => bytes16(a) + bytes16(b) + bytes16(c) + bytes16(d)
            + bytes16(e) + bytes16(f) + bytes16(g) + bytes16(h),
    }
}

/// Read a 16-bit number.
pub fn read16(b: &[u8], i: usize) -> (r: u16)
    requires
        i + 2 <= b.len(),
    ensures
        r == be16(b@, i as int),
{
    (b[i] as u16) * 256 + b[i + 1] as u16
}

/// Read a 32-bit number.
pub fn read32(b: &[u8], i: usize) -> (r: u32)
    requires
        i + 4 <= b.len(),
    ensures
        r == be32(b@, i as int),
{
    (read16(b, i) as u32) * 65536 + read16(b, i + 2) as u32
}

/// Read an IPv4 address.
pub fn read_v4(b: &[u8], i: usize) -> (r: IpAddr)
    requires
        i + 4 <= b.len(),
    ensures
        r == v4_at(b@, i as int),
{
    IpAddr::V4(b[i], b[i + 1], b[i + 2], b[i + 3])
}

/// Read an IPv6 address.
pub fn read_v6(b: &[u8], i: usize) -> (r: IpAddr)
    requires
        i + 16 <= b.len(),
    ensures
        r == v6_at(b@, i as int),
{
    IpAddr::V6(
        read16(b, i),
        read16(b, i + 2),
        read16(b, i + 4),
        read16(b, i + 6),
        read16(b, i + 8),
        read16(b, i + 10),
        read16(b, i + 12),
        read16(b, i + 14),
    )
}

/// Append a 16-bit number.
pub fn push16(out: &mut Vec<u8>, x: u16)
    ensures
        final(out)@ == old(out)@ + bytes16(x),
{
    out.push((x / 256) as u8);
    out.push((x % 256) as u8);
    assert(out@ =~= old(out)@ + bytes16(x));
}

/// Append a 32-bit number.
pub fn push32(out: &mut Vec<u8>, x: u32)
    ensures
        final(out)@ == old(out)@ + bytes32(x),
{
    push16(out, (x / 65536) as u16);
    push16(out, (x % 65536) as u16);
    assert(out@ =~= old(out)@ + bytes32(x));
}

/// Append the bytes of an address.
pub fn push_octets(out: &mut Vec<u8>, a: &IpAddr)
    ensures
        final(out)@ == old(out)@ + octets(*a),
{
    match *a {
        IpAddr::V4(a, b, c, d) => {
            out.push(a);
            out.push(b);
            out.push(c);
            out.push(d);
        },
        IpAddr::V6(a, b, c, d, e, f, g, h) => {
            push16(out, a);
            push16(out, b);
            push16(out, c);
            push16(out, d);
            push16(out, e);
            push16(out, f);
            push16(out, g);
            push16(out, h);
        },
    }
    assert(out@ =~= old(out)@ + octets(*a));
}

/// Append a run of bytes.
pub fn push_bytes(out: &mut Vec<u8>, b: &[u8])
    ensures
        final(out)@ == old(out)@ + b@,
{
    let n: usize = b.len();
    let ghost start = out@;
    assert(out@ =~= start + b@.take(0));
    for i in 0..n
        invariant
            n == b@.len(),
            out@ == start + b@.take(i as int),
    {
        out.push(b[i]);
        assert(start + b@.take(i + 1) =~= (start + b@.take(i as int)).push(b@[i as int]));
    }
    assert(b@.take(n as int) =~= b@);
}

/// Written bytes of an address read back, wherever they stand.
pub proof fn lemma_octets_back(b: Seq<u8>, i: int, a: IpAddr)
    requires
        0 <= i,
        i + octets(a).len() <= b.len(),
        b.subrange(i, i + octets(a).len()) == octets(a),
    ensures
        a is V4 ==> v4_at(b, i) == a,
        a is V6 ==> v6_at(b, i) == a,
{
    let o = octets(a);
    assert forall|k: int| 0 <= k < o.len() implies b[i + k] == o[k] by {
        assert(b.subrange(i, i + o.len())[k] == b[i + k]);
    }
    match a {
        IpAddr::V4(..) => {
            assert(b[i] == o[0]);
            assert(b[i + 1] == o[1]);
            assert(b[i + 2] == o[2]);
            assert(b[i + 3] == o[3]);
        },
        IpAddr::V6(x0, x1, x2, x3, x4, x5, x6, x7) => {
            assert(b[i] == o[0] && b[i + 1] == o[1]);
            assert(be16(b, i) == x0);
            assert(b[i + 2] == o[2] && b[i + 3] == o[3]);
            assert(be16(b, i + 2) == x1);
            assert(b[i + 4] == o[4] && b[i + 5] == o[5]);
            assert(be16(b, i + 4) == x2);
            assert(b[i + 6] == o[6] && b[i + 7] == o[7]);
            assert(be16(b, i + 6) == x3);
            assert(b[i + 8] == o[8] && b[i + 9] == o[9]);
            assert(be16(b, i + 8) == x4);
            assert(b[i + 10] == o[10] && b[i + 11] == o[11]);
            assert(be16(b, i + 10) == x5);
            assert(b[i + 12] == o[12] && b[i + 13] == o[13]);
            assert(be16(b, i + 12) == x6);
            assert(b[i + 14] == o[14] && b[i + 15] == o[15]);
            assert(be16(b, i + 14) == x7);
        },
    }
}

} // verus!
