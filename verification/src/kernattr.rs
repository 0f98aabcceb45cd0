//! Kernel-side attribution: the messages exchanged with the kernel module.
//!
//! The module recorded the owner of each socket when it was created, so asking
//! it needs no scan and races with nothing. A miss is expected, not exceptional:
//! sockets older than the module have no label, and the caller falls back to a
//! scan.
//!
//! Every message is laid out byte for byte as the module's header file declares
//! it. Ports and addresses are in network order, the other numbers in the order
//! of the machine.
use crate::addr::IpAddr;
use crate::bytes::{bytes16, lemma_octets_back, octets, push16, push_bytes, push_octets};
use crate::platform::{lossy, to_text_lossy};
use crate::procinfo::{known_path, owner_named, Attribution, Confidence, Tuple};
use vstd::prelude::*;
use vstd::utf8::encode_utf8;

verus! {

/// The version of the message layout.
pub const VERSION: u32 = 1;

/// The sizes of the two messages.
pub const ATTR_LEN: usize = 1108;

pub const VERDICT_LEN: usize = 1052;

/// The room for a path, with its terminating zero.
pub const PATH_LEN: usize = 1024;

/// The order in which the machine stores the bytes of a number.
#[derive(Debug, Clone, Copy, PartialEq, Eq, Structural)]
pub enum ByteOrder {
    Little,
    Big,
}

/// A number in the order of the machine.
pub open spec fn native32(order: ByteOrder, x: u32) -> Seq<u8> {
    let big = seq![
        (x / 0x100_0000) as u8,
        (x / 0x1_0000 % 256) as u8,
        (x / 0x100 % 256) as u8,
        (x % 256) as u8,
    ];
    match order {
        ByteOrder::Big => big,
        ByteOrder::Little => seq![big[3], big[2], big[1], big[0]],
    }
}

/// The number at position `i`, in the order of the machine.
pub open spec fn native_at(order: ByteOrder, b: Seq<u8>, i: int) -> u32 {
    match order {
        ByteOrder::Big => (b[i] * 0x100_0000 + b[i + 1] * 0x1_0000 + b[i + 2] * 0x100 + b[i
            + 3]) as u32,
        ByteOrder::Little => (b[i + 3] * 0x100_0000 + b[i + 2] * 0x1_0000 + b[i + 1] * 0x100
            + b[i]) as u32,
    }
}

fn push_native32(out: &mut Vec<u8>, order: ByteOrder, x: u32)
    ensures
        final(out)@ == old(out)@ + native32(order, x),
{
    let a: u8 = (x / 0x100_0000) as u8;
    let b: u8 = (x / 0x1_0000 % 256) as u8;
    let c: u8 = (x / 0x100 % 256) as u8;
    let d: u8 = (x % 256) as u8;
    match order {
        ByteOrder::Big => {
            out.push(a);
            out.push(b);
            out.push(c);
            out.push(d);
        },
        ByteOrder::Little => {
            out.push(d);
            out.push(c);
            out.push(b);
            out.push(a);
        },
    }
    assert(out@ =~= old(out)@ + native32(order, x));
}

fn read_native32(order: ByteOrder, b: &[u8], i: usize) -> (r: u32)
    requires
        i + 4 <= b.len(),
    ensures
        r == native_at(order, b@, i as int),
{
    let (w, x, y, z) = match order {
        ByteOrder::Big => (b[i], b[i + 1], b[i + 2], b[i + 3]),
        ByteOrder::Little => (b[i + 3], b[i + 2], b[i + 1], b[i]),
    };
    w as u32 * 0x100_0000 + x as u32 * 0x1_0000 + y as u32 * 0x100 + z as u32
}

/// A written number reads back.
pub proof fn lemma_native_back(order: ByteOrder, x: u32)
    ensures
        native_at(order, native32(order, x), 0) == x,
{
}

/// So many zero bytes.
pub open spec fn zero_bytes(n: int) -> Seq<u8> {
    Seq::new(n as nat, |i: int| 0u8)
}

fn push_zeros(out: &mut Vec<u8>, n: usize)
    ensures
        final(out)@ == old(out)@ + zero_bytes(n as int),
{
    let ghost start = out@;
    assert(start + zero_bytes(0) =~= start);
    for i in 0..n
        invariant
            out@ == start + zero_bytes(i as int),
    {
        out.push(0);
        assert(start + zero_bytes(i + 1) =~= (start + zero_bytes(i as int)).push(0));
    }
}

// ---------------------------------------------------------------------------
// Messages to the module.
// ---------------------------------------------------------------------------

/// The family of an address, as the messages write it.
pub open spec fn family(a: IpAddr) -> u8 {
    match a {
        IpAddr::V4(..) => 4,
        IpAddr::V6(..) => 6,
    }
}

/// An address in a field of sixteen bytes.
pub open spec fn address_field(a: IpAddr) -> Seq<u8> {
    octets(a) + zero_bytes(16 - octets(a).len())
}

/// Can the module be asked about this protocol?
pub open spec fn is_known_proto(proto: u8) -> bool {
    proto == 6 || proto == 17
}

/// The question who owns an outbound flow: the source of the packet is the local
/// end. The answer is written over the rest of the message.
pub open spec fn query_bytes(order: ByteOrder, t: Tuple) -> Seq<u8> {
    native32(order, VERSION) + seq![family(t.src), t.proto] + bytes16(t.sport) + bytes16(t.dport)
        + zero_bytes(2) + address_field(t.src) + address_field(t.dst) + zero_bytes(1064)
}

/// The question about a flow. None for a protocol the module does not know, and
/// for ends of different families.
pub open spec fn query_of(order: ByteOrder, t: Tuple) -> Option<Seq<u8>> {
    if is_known_proto(t.proto) && family(t.src) == family(t.dst) {
        Some(query_bytes(order, t))
    } else {
        None
    }
}

fn family_of(a: &IpAddr) -> (r: u8)
    ensures
        r == family(*a),
{
    match a {
        IpAddr::V4(..) => 4,
        IpAddr::V6(..) => 6,
    }
}

fn push_address(out: &mut Vec<u8>, a: &IpAddr)
    ensures
        final(out)@ == old(out)@ + address_field(*a),
{
    push_octets(out, a);
    match a {
        IpAddr::V4(..) => push_zeros(out, 12),
        IpAddr::V6(..) => push_zeros(out, 0),
    }
    assert(out@ =~= old(out)@ + address_field(*a));
}

/// The message that asks who owns an outbound flow.
pub fn encode_query(order: ByteOrder, t: &Tuple) -> (r: Option<Vec<u8>>)
    ensures
        (match r {
            Some(b) => query_of(order, *t) == Some(b@) && b@.len() == ATTR_LEN,
            None => query_of(order, *t) is None,
        }),
{
    if (t.proto != 6 && t.proto != 17) || family_of(&t.src) != family_of(&t.dst) {
        return None;
    }
    let mut out: Vec<u8> = Vec::new();
    push_native32(&mut out, order, VERSION);
    out.push(family_of(&t.src));
    out.push(t.proto);
    push16(&mut out, t.sport);
    push16(&mut out, t.dport);
    push_zeros(&mut out, 2);
    push_address(&mut out, &t.src);
    push_address(&mut out, &t.dst);
    push_zeros(&mut out, 1064);
    proof {
        assert(out@ =~= query_bytes(order, *t));
        assert(native32(order, VERSION).len() == 4);
        assert(address_field(t.src).len() == 16 && address_field(t.dst).len() == 16);
    }
    Some(out)
}

/// Can a path be written with its terminating zero? One that does not fit must
/// not be cut short: it would name another binary.
pub open spec fn path_fits(path: Seq<u8>) -> bool {
    0 < path.len() < PATH_LEN
}

/// The message that a verdict for one binary and destination is settled.
pub open spec fn verdict_bytes(
    order: ByteOrder,
    proto: u8,
    dst: IpAddr,
    dport: u16,
    path: Seq<u8>,
    allow: bool,
) -> Seq<u8> {
    native32(order, VERSION) + seq![family(dst), proto] + bytes16(dport) + address_field(dst) + seq![
        if allow {
            1u8
        } else {
            2u8
        },
    ] + zero_bytes(3) + path + zero_bytes(PATH_LEN - path.len())
}

/// The message that settles a verdict, if it can be written.
pub open spec fn verdict_of(
    order: ByteOrder,
    proto: u8,
    dst: IpAddr,
    dport: u16,
    path: Seq<u8>,
    allow: bool,
) -> Option<Seq<u8>> {
    if is_known_proto(proto) && path_fits(path) {
        Some(verdict_bytes(order, proto, dst, dport, path, allow))
    } else {
        None
    }
}

/// The message that settles a verdict for one binary and destination, so that the
/// kernel can answer for it. None if the module cannot be told.
pub fn encode_verdict(
    order: ByteOrder,
    proto: u8,
    dst: &IpAddr,
    dport: u16,
    path: &str,
    allow: bool,
) -> (r: Option<Vec<u8>>)
    ensures
        (match r {
            Some(b) => verdict_of(order, proto, *dst, dport, encode_utf8(path@), allow) == Some(b@)
                && b@.len() == VERDICT_LEN,
            None => verdict_of(order, proto, *dst, dport, encode_utf8(path@), allow) is None,
        }),
{
    let p = path.as_bytes();
    if (proto != 6 && proto != 17) || p.len() == 0 || p.len() >= PATH_LEN {
        return None;
    }
    let mut out: Vec<u8> = Vec::new();
    push_native32(&mut out, order, VERSION);
    out.push(family_of(dst));
    out.push(proto);
    push16(&mut out, dport);
    push_address(&mut out, dst);
    out.push(
        if allow {
            1
        } else {
            2
        },
    );
    push_zeros(&mut out, 3);
    push_bytes(&mut out, p);
    push_zeros(&mut out, PATH_LEN - p.len());
    proof {
        assert(out@ =~= verdict_bytes(order, proto, *dst, dport, p@, allow));
        assert(native32(order, VERSION).len() == 4);
        assert(address_field(*dst).len() == 16);
    }
    Some(out)
}

// ---------------------------------------------------------------------------
// Messages from the module.
// ---------------------------------------------------------------------------

/// The bytes of a field up to its first zero.
pub open spec fn until_zero(b: Seq<u8>) -> Seq<u8>
    decreases b.len(),
{
    if b.len() == 0 || b[0] == 0 {
        Seq::empty()
    } else {
        seq![b[0]] + until_zero(b.skip(1))
    }
}

/// What the module answered: nothing, or the process, its command and its
/// binary.
pub open spec fn reply_owner(order: ByteOrder, b: Seq<u8>) -> Option<(i32, Seq<char>, Seq<char>)> {
    if b[44] == 0 {
        None
    } else {
        let command = lossy(until_zero(b.subrange(60, 84)));
        let path = lossy(until_zero(b.subrange(84, 1108)));
        Some((native_at(order, b, 48) as i32, command, known_path(path, command)))
    }
}

proof fn lemma_until_zero(b: Seq<u8>, n: int)
    requires
        0 <= n <= b.len(),
        forall|i: int| 0 <= i < n ==> b[i] != 0,
        n < b.len() ==> b[n] == 0,
    ensures
        until_zero(b) == b.take(n),
    decreases n,
{
    if n == 0 {
        assert(b.take(0) =~= Seq::<u8>::empty());
        if b.len() == 0 {
            assert(until_zero(b) =~= Seq::<u8>::empty());
        }
    } else {
        assert forall|i: int| 0 <= i < n - 1 implies b.skip(1)[i] != 0 by {
            assert(b[i + 1] != 0);
        }
        lemma_until_zero(b.skip(1), n - 1);
        assert(b.take(n) =~= seq![b[0]] + b.skip(1).take(n - 1));
    }
}

fn field_text(b: &[u8]) -> (r: String)
    ensures
        r@ == lossy(until_zero(b@)),
{
    let n: usize = b.len();
    let mut i: usize = 0;
    while i < n && b[i] != 0
        invariant
            n == b@.len(),
            i <= n,
            forall|j: int| 0 <= j < i ==> b@[j] != 0,
        decreases n - i,
    {
        i = i + 1;
    }
    proof {
        lemma_until_zero(b@, i as int);
    }
    let part = &b[0..i];
    assert(part@ =~= b@.take(i as int));
    to_text_lossy(part)
}

/// Read the module's answer.
pub fn decode_reply(order: ByteOrder, b: &[u8]) -> (r: Option<Attribution>)
    requires
        b@.len() == ATTR_LEN,
    ensures
        (match r {
            Some(a) => reply_owner(order, b@) == Some(
                (a.owner.pid, a.owner.command@, a.owner.path@),
            ) && a.confidence == Confidence::Kernel,
            None => reply_owner(order, b@) is None,
        }),
{
    if b[44] == 0 {
        return None;
    }
    let comm = &b[60..84];
    assert(comm@ =~= b@.subrange(60, 84));
    let path = &b[84..1108];
    assert(path@ =~= b@.subrange(84, 1108));
    let pid: i32 = read_native32(order, b, 48) as i32;
    Some(
        Attribution {
            owner: owner_named(pid, field_text(comm), field_text(path)),
            confidence: Confidence::Kernel,
        },
    )
}

// ---------------------------------------------------------------------------
// Commands and errors.
// ---------------------------------------------------------------------------

/// An ioctl command: the direction, the size of the argument, the group letter
/// `F` and a number.
pub open spec fn command(direction: int, number: int, len: int) -> int {
    direction + (len % 0x2000) * 0x1_0000 + 70 * 0x100 + number
}

fn ioc(direction: u64, number: u64, len: u64) -> (r: u64)
    requires
        direction <= 0xE000_0000,
        number < 0x100,
    ensures
        r == command(direction as int, number as int, len as int),
{
    direction + (len % 0x2000) * 0x1_0000 + 70 * 0x100 + number
}

/// The command that asks who owns a flow.
pub fn attr_query_cmd() -> (r: u64)
    ensures
        r == command(0xC000_0000, 1, ATTR_LEN as int),
        r == 0xC454_4601,
{
    ioc(0xC000_0000, 1, ATTR_LEN as u64)
}

/// The command that settles a verdict.
pub fn verdict_push_cmd() -> (r: u64)
    ensures
        r == command(0x8000_0000, 2, VERDICT_LEN as int),
        r == 0x841C_4602,
{
    ioc(0x8000_0000, 2, VERDICT_LEN as u64)
}

/// The command that abandons every settled verdict.
pub fn verdict_flush_cmd() -> (r: u64)
    ensures
        r == command(0x2000_0000, 3, 0),
        r == 0x2000_4603,
{
    ioc(0x2000_0000, 3, 0)
}

/// The errors that mean a device is not coming back.
pub const ENXIO: i32 = 6;

pub const EBADF: i32 = 9;

pub const ENODEV: i32 = 19;

pub const ENOTTY: i32 = 25;

/// Does this error mean that the device is gone? A destroyed device answers
/// `ENOTTY`; the others are further ways of saying the same.
pub fn device_gone(errno: Option<i32>) -> (r: bool)
    ensures
        r == (errno matches Some(e) && (e == ENOTTY || e == ENXIO || e == EBADF || e == ENODEV)),
{
    match errno {
        Some(e) => e == ENOTTY || e == ENXIO || e == EBADF || e == ENODEV,
        None => false,
    }
}

// ---------------------------------------------------------------------------
// What holds of every message.
// ---------------------------------------------------------------------------

/// Two binaries, or two destinations, never share a message: what is settled for
/// one is settled for no other.
pub proof fn lemma_verdicts_are_distinct(
    order: ByteOrder,
    dst: IpAddr,
    dport: u16,
    path: Seq<u8>,
    dst2: IpAddr,
    dport2: u16,
    path2: Seq<u8>,
    proto: u8,
    allow: bool,
)
    requires
        path_fits(path),
        path_fits(path2),
        forall|i: int| 0 <= i < path.len() ==> path[i] != 0,
        forall|i: int| 0 <= i < path2.len() ==> path2[i] != 0,
        verdict_bytes(order, proto, dst, dport, path, allow) == verdict_bytes(
            order,
            proto,
            dst2,
            dport2,
            path2,
            allow,
        ),
    ensures
        dst == dst2,
        dport == dport2,
        path == path2,
{
    let a = verdict_bytes(order, proto, dst, dport, path, allow);
    let b = verdict_bytes(order, proto, dst2, dport2, path2, allow);
    assert(native32(order, VERSION).len() == 4);
    assert(address_field(dst).len() == 16 && address_field(dst2).len() == 16);
    assert(a[6] == (dport / 256) as u8 && a[7] == (dport % 256) as u8);
    assert(b[6] == (dport2 / 256) as u8 && b[7] == (dport2 % 256) as u8);
    assert forall|i: int| 0 <= i < PATH_LEN implies #[trigger] a[28 + i] == (if i < path.len() {
        path[i]
    } else {
        0u8
    }) by {}
    assert forall|i: int| 0 <= i < PATH_LEN implies #[trigger] b[28 + i] == (if i < path2.len() {
        path2[i]
    } else {
        0u8
    }) by {}
    if path.len() < path2.len() {
        assert(path2[path.len() as int] != 0);
        assert(a[28 + path.len() as int] == b[28 + path.len() as int]);
        assert(false);
    }
    if path2.len() < path.len() {
        assert(path[path2.len() as int] != 0);
        assert(a[28 + path2.len() as int] == b[28 + path2.len() as int]);
        assert(false);
    }
    assert forall|i: int| 0 <= i < path.len() implies path[i] == path2[i] by {
        assert(a[28 + i] == b[28 + i]);
    }
    assert(path =~= path2);
    assert(a[4] == family(dst) && b[4] == family(dst2));
    assert(a.subrange(8, 24) =~= address_field(dst));
    assert(b.subrange(8, 24) =~= address_field(dst2));
    let n = octets(dst).len() as int;
    assert(octets(dst) =~= address_field(dst).take(n));
    assert(octets(dst2) =~= address_field(dst2).take(n));
    assert(octets(dst).subrange(0, n) =~= octets(dst));
    lemma_octets_back(octets(dst), 0, dst);
    lemma_octets_back(octets(dst2), 0, dst2);
}

} // verus!
