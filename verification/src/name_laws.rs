//! Which names are learned from which answers, said of the bytes of a message.
use crate::addr::IpAddr;
use crate::bytes::{be16, v6_at};
use crate::dns::{
    answer_addresses, lemma_answers_are_named, lemma_other_names_stay, name_at, name_end, name_from,
    observed, questions_end, response, Names, MAX_JUMPS,
};
use crate::platform::lossy;
use vstd::prelude::*;
use vstd::utf8::{encode_utf8, encode_utf8_decode_utf8, encode_utf8_valid_utf8};

verus! {

// ---------------------------------------------------------------------------
// Records.
// ---------------------------------------------------------------------------

/// Where the fixed part of the record at `off` starts: behind its name.
pub open spec fn body_at(b: Seq<u8>, off: int) -> int {
    (name_at(b, off)->0).1
}

/// Does a whole record stand at `off`: a name that can be read, ten bytes, and as
/// many bytes of data as these say?
pub open spec fn is_whole(b: Seq<u8>, off: int) -> bool {
    &&& name_at(b, off) is Some
    &&& body_at(b, off) + 10 <= b.len()
    &&& body_at(b, off) + 10 + be16(b, body_at(b, off) + 8) <= b.len()
}

/// Where the record `i` places behind the one at `off` starts, if all before it are
/// whole.
pub open spec fn record_at(b: Seq<u8>, off: int, i: nat) -> Option<int>
    decreases i,
{
    if i == 0 {
        Some(off)
    } else if is_whole(b, off) {
        record_at(
            b,
            body_at(b, off) + 10 + be16(b, body_at(b, off) + 8),
            (i - 1) as nat,
        )
    } else {
        None
    }
}

/// Does the record at `off` give this address: a record of type A with four bytes
/// of data, or of type AAAA with sixteen, that spell it?
pub open spec fn gives(b: Seq<u8>, off: int, ip: IpAddr) -> bool {
    let at = body_at(b, off);
    &&& is_whole(b, off)
    &&& match ip {
        IpAddr::V4(p, q, r, s) => b[at] == 0 && b[at + 1] == 1 && b[at + 8] == 0 && b[at + 9] == 4
            && b[at + 10] == p && b[at + 11] == q && b[at + 12] == r && b[at + 13] == s,
        IpAddr::V6(..) => b[at] == 0 && b[at + 1] == 28 && b[at + 8] == 0 && b[at + 9] == 16 && ip
            == v6_at(b, at + 10),
    }
}

/// Where the answers of a message start: behind its questions, each of which is a
/// name and four bytes. None if a name cannot be read.
pub open spec fn answers_at(b: Seq<u8>, off: int, questions: nat) -> Option<int>
    decreases questions,
{
    if questions == 0 {
        Some(off)
    } else if name_at(b, off) is Some {
        answers_at(b, body_at(b, off) + 4, (questions - 1) as nat)
    } else {
        None
    }
}

proof fn lemma_questions(b: Seq<u8>, k: nat, off: int)
    ensures
        questions_end(b, k, off) == answers_at(b, off, k),
    decreases k,
{
    if k > 0 && name_at(b, off) is Some {
        lemma_questions(b, (k - 1) as nat, body_at(b, off) + 4);
    }
}

proof fn lemma_records(b: Seq<u8>, k: nat, off: int)
    ensures
        answer_addresses(b, k, off) is None <==> exists|i: nat|
            i < k && (#[trigger] record_at(b, off, i) matches Some(o) && name_at(b, o) is None),
        answer_addresses(b, k, off) matches Some(ips) ==> forall|ip: IpAddr| #[trigger]
            ips.contains(ip) <==> exists|i: nat|
                i < k && (#[trigger] record_at(b, off, i) matches Some(o) && gives(b, o, ip)),
    decreases k,
{
    let all = answer_addresses(b, k, off);
    if k > 0 {
        assert(record_at(b, off, 0) == Some(off));
        if is_whole(b, off) {
            let next = body_at(b, off) + 10 + be16(b, body_at(b, off) + 8);
            let rest = answer_addresses(b, (k - 1) as nat, next);
            lemma_records(b, (k - 1) as nat, next);
            assert forall|i: nat| #[trigger] record_at(b, off, i + 1) == record_at(b, next, i) by {}
            assert(all is None <==> rest is None);
            if exists|i: nat|
                i < k - 1 && (#[trigger] record_at(b, next, i) matches Some(o) && name_at(b, o)
                    is None) {
                let i = choose|i: nat|
                    i < k - 1 && (#[trigger] record_at(b, next, i) matches Some(o) && name_at(b, o)
                        is None);
                assert(record_at(b, off, i + 1) == record_at(b, next, i));
            }
            if exists|i: nat|
                i < k && (#[trigger] record_at(b, off, i) matches Some(o) && name_at(b, o)
                    is None) {
                let i = choose|i: nat|
                    i < k && (#[trigger] record_at(b, off, i) matches Some(o) && name_at(b, o)
                        is None);
                assert(i > 0);
                assert(record_at(b, off, i) == record_at(b, next, (i - 1) as nat));
            }
            if let Some(ips) = all {
                let tail = rest->0;
                assert forall|ip: IpAddr| #[trigger] ips.contains(ip) <==> exists|i: nat|
                    i < k && (#[trigger] record_at(b, off, i) matches Some(o) && gives(
                        b,
                        o,
                        ip,
                    )) by {
                    lemma_own_address(b, off, ip);
                    let own = crate::dns::record_address(
                        b,
                        be16(b, body_at(b, off)),
                        be16(b, body_at(b, off) + 8),
                        body_at(b, off) + 10,
                    );
                    assert(ips == own + tail);
                    assert(ips.contains(ip) <==> own.contains(ip) || tail.contains(ip)) by {
                        if own.contains(ip) {
                            let x = choose|x: int| 0 <= x < own.len() && own[x] == ip;
                            assert(ips[x] == ip);
                        }
                        if tail.contains(ip) {
                            let x = choose|x: int| 0 <= x < tail.len() && tail[x] == ip;
                            assert(ips[own.len() + x] == ip);
                        }
                        if ips.contains(ip) {
                            let x = choose|x: int| 0 <= x < ips.len() && ips[x] == ip;
                            if x < own.len() {
                                assert(own[x] == ip);
                            } else {
                                assert(tail[x - own.len()] == ip);
                            }
                        }
                    }
                    if tail.contains(ip) {
                        let i = choose|i: nat|
                            i < k - 1 && (#[trigger] record_at(b, next, i) matches Some(o) && gives(
                                b,
                                o,
                                ip,
                            ));
                        assert(record_at(b, off, i + 1) == record_at(b, next, i));
                    }
                    if exists|i: nat|
                        i < k && (#[trigger] record_at(b, off, i) matches Some(o) && gives(
                            b,
                            o,
                            ip,
                        )) {
                        let i = choose|i: nat|
                            i < k && (#[trigger] record_at(b, off, i) matches Some(o) && gives(
                                b,
                                o,
                                ip,
                            ));
                        if i > 0 {
                            assert(record_at(b, off, i) == record_at(b, next, (i - 1) as nat));
                        }
                    }
                }
            }
        } else {
            assert forall|i: nat| i > 0 implies #[trigger] record_at(b, off, i) is None by {}
        }
    }
}

proof fn lemma_own_address(b: Seq<u8>, off: int, ip: IpAddr)
    requires
        is_whole(b, off),
    ensures
        ({
            let at = body_at(b, off);
            crate::dns::record_address(b, be16(b, at), be16(b, at + 8), at + 10).contains(ip)
                <==> gives(b, off, ip)
        }),
{
    let at = body_at(b, off);
    let own = crate::dns::record_address(b, be16(b, at), be16(b, at + 8), at + 10);
    assert(be16(b, at) == b[at] * 256 + b[at + 1]);
    assert(be16(b, at + 8) == b[at + 8] * 256 + b[at + 9]);
    if own.len() > 0 {
        assert(own[0] == own[0]);
        assert(own.contains(ip) <==> own[0] == ip);
    }
}

/// Does the record at `off` give an address?
pub open spec fn gives_some(b: Seq<u8>, off: int) -> bool {
    exists|ip: IpAddr| gives(b, off, ip)
}

/// A message is learned from exactly if it is a response, asks something and
/// answers it, the names of its questions and of its answers can be read as far as
/// they are reached, and one of its answers gives an address.
pub proof fn lemma_responses(b: Seq<u8>)
    requires
        b.len() >= 12,
    ensures
        ({
            let qd = (b[4] * 256 + b[5]) as nat;
            let an = (b[6] * 256 + b[7]) as nat;
            let first = answers_at(b, 12, qd);
            response(b) is Some <==> {
                &&& b[2] >= 128
                &&& qd > 0
                &&& an > 0
                &&& first is Some
                &&& forall|i: nat|
                    i < an ==> (#[trigger] record_at(b, first->0, i) matches Some(o) ==> name_at(
                        b,
                        o,
                    ) is Some)
                &&& exists|i: nat|
                    i < an && (#[trigger] record_at(b, first->0, i) matches Some(o) && gives_some(
                        b,
                        o,
                    ))
            }
        }),
{
    let qd = (b[4] * 256 + b[5]) as nat;
    let an = (b[6] * 256 + b[7]) as nat;
    assert(be16(b, 4) == qd && be16(b, 6) == an);
    let first = answers_at(b, 12, qd);
    if qd > 0 && name_at(b, 12) is Some {
        let (name, end) = name_at(b, 12)->0;
        lemma_questions(b, (qd - 1) as nat, end + 4);
        assert(first == questions_end(b, (qd - 1) as nat, end + 4));
        if let Some(at) = first {
            lemma_records(b, an, at);
            if let Some(ips) = answer_addresses(b, an, at) {
                if ips.len() > 0 {
                    assert(ips.contains(ips[0]));
                    let i = choose|i: nat|
                        i < an && (#[trigger] record_at(b, at, i) matches Some(o) && gives(
                            b,
                            o,
                            ips[0],
                        ));
                    assert(gives_some(b, record_at(b, at, i)->0));
                }
                if exists|i: nat|
                    i < an && (#[trigger] record_at(b, at, i) matches Some(o) && gives_some(b, o)) {
                    let i = choose|i: nat|
                        i < an && (#[trigger] record_at(b, at, i) matches Some(o) && gives_some(
                            b,
                            o,
                        ));
                    let ip = choose|ip: IpAddr| gives(b, record_at(b, at, i)->0, ip);
                    assert(ips.contains(ip));
                }
            }
        }
    }
}

/// What is learned from a response is the name of its first question, for the
/// addresses that its answers give: for all of them, and for no other.
pub proof fn lemma_every_answer_counts(b: Seq<u8>, ip: IpAddr)
    requires
        response(b) is Some,
    ensures
        ({
            let (name, ips) = response(b)->0;
            let first = answers_at(b, 12, (b[4] * 256 + b[5]) as nat)->0;
            let an = (b[6] * 256 + b[7]) as nat;
            &&& name_at(b, 12) matches Some((n, _)) && n == name
            &&& ips.contains(ip) <==> exists|i: nat|
                i < an && (#[trigger] record_at(b, first, i) matches Some(o) && gives(b, o, ip))
        }),
{
    let qd = (b[4] * 256 + b[5]) as nat;
    let an = (b[6] * 256 + b[7]) as nat;
    assert(be16(b, 4) == qd && be16(b, 6) == an);
    let (name, end) = name_at(b, 12)->0;
    lemma_questions(b, (qd - 1) as nat, end + 4);
    assert(answers_at(b, 12, qd) == questions_end(b, (qd - 1) as nat, end + 4));
    lemma_records(b, an, answers_at(b, 12, qd)->0);
}

/// After a response has passed by, every address that one of its answers gives is
/// known by the name that was asked for, however many answers there are.
pub proof fn lemma_answers_teach(m: Names, b: Seq<u8>, now: u64, i: nat, ip: IpAddr)
    requires
        response(b) is Some,
        i < b[6] * 256 + b[7],
        record_at(b, answers_at(b, 12, (b[4] * 256 + b[5]) as nat)->0, i) matches Some(o) && gives(
            b,
            o,
            ip,
        ),
    ensures
        observed(m, b, now).contains_key(ip),
        observed(m, b, now)[ip] == ((name_at(b, 12)->0).0, now),
{
    lemma_every_answer_counts(b, ip);
    assert((response(b)->0).1.contains(ip));
    lemma_answers_are_named(m, b, now, ip);
}

// ---------------------------------------------------------------------------
// Names.
// ---------------------------------------------------------------------------

/// Labels as a message spells them: the length of each, its bytes, and a zero at
/// the end.
pub open spec fn wire(labels: Seq<Seq<char>>) -> Seq<u8>
    decreases labels.len(),
{
    if labels.len() == 0 {
        seq![0u8]
    } else {
        let l = encode_utf8(labels[0]);
        seq![l.len() as u8] + l + wire(labels.skip(1))
    }
}

/// Labels as people spell them: with dots between them.
pub open spec fn dotted(labels: Seq<Seq<char>>) -> Seq<char>
    decreases labels.len(),
{
    if labels.len() == 0 {
        Seq::empty()
    } else if labels.len() == 1 {
        labels[0]
    } else {
        labels[0] + seq!['.'] + dotted(labels.skip(1))
    }
}

/// Could this be a label: one byte or more, and a length that is no pointer?
pub open spec fn is_label(l: Seq<char>) -> bool {
    1 <= encode_utf8(l).len() < 192
}

proof fn lemma_labels_read(
    b: Seq<u8>,
    off: int,
    jumps: nat,
    name: Seq<char>,
    labels: Seq<Seq<char>>,
)
    requires
        0 <= off,
        off + wire(labels).len() <= b.len(),
        b.subrange(off, off + wire(labels).len()) == wire(labels),
        forall|i: int| 0 <= i < labels.len() ==> is_label(#[trigger] labels[i]),
    ensures
        name_from(b, off, jumps, name) == Some(
            if labels.len() == 0 {
                name
            } else if name.len() == 0 {
                dotted(labels)
            } else {
                name + seq!['.'] + dotted(labels)
            },
        ),
        name_end(b, off) == off + wire(labels).len(),
    decreases labels.len(),
{
    let w = wire(labels);
    assert forall|i: int| 0 <= i < w.len() implies #[trigger] b[off + i] == w[i] by {
        assert(b.subrange(off, off + w.len())[i] == b[off + i]);
    }
    assert(w.len() > 0);
    assert(b[off + 0] == w[0]);
    if labels.len() > 0 {
        assert(is_label(labels[0]));
        let l = encode_utf8(labels[0]);
        let rest = labels.skip(1);
        let to = off + 1 + l.len();
        assert(w == seq![l.len() as u8] + l + wire(rest));
        assert(w.len() == 1 + l.len() + wire(rest).len());
        let own = b.subrange(off + 1, to);
        assert forall|i: int| 0 <= i < l.len() implies #[trigger] own[i] == l[i] by {
            assert(b[off + (1 + i)] == w[1 + i]);
        }
        assert(own =~= l);
        let tail = b.subrange(to, to + wire(rest).len());
        assert forall|i: int| 0 <= i < wire(rest).len() implies #[trigger] tail[i] == wire(
            rest,
        )[i] by {
            assert(b[off + (1 + l.len() + i)] == w[1 + l.len() + i]);
        }
        assert(tail =~= wire(rest));
        assert forall|i: int| 0 <= i < rest.len() implies is_label(#[trigger] rest[i]) by {
            assert(rest[i] == labels[i + 1]);
        }
        encode_utf8_valid_utf8(labels[0]);
        encode_utf8_decode_utf8(labels[0]);
        assert(lossy(l) == labels[0]);
        assert(labels[0].len() > 0) by {
            if labels[0].len() == 0 {
                assert(encode_utf8(labels[0]).len() == 0);
            }
        }
        let longer = crate::dns::with_label(name, labels[0]);
        lemma_labels_read(b, to, jumps, longer, rest);
        if rest.len() == 0 {
            assert(dotted(labels) == labels[0]);
        } else if name.len() == 0 {
            assert(longer + seq!['.'] + dotted(rest) =~= dotted(labels));
        } else {
            assert(longer + seq!['.'] + dotted(rest) =~= name + seq!['.'] + dotted(labels));
        }
    }
}

/// A name that is spelled out reads as its labels with dots between them, and ends
/// behind its zero.
pub proof fn lemma_spelled_names_read(b: Seq<u8>, off: int, labels: Seq<Seq<char>>)
    requires
        0 <= off,
        off + wire(labels).len() <= b.len(),
        b.subrange(off, off + wire(labels).len()) == wire(labels),
        forall|i: int| 0 <= i < labels.len() ==> is_label(#[trigger] labels[i]),
    ensures
        name_at(b, off) == Some((dotted(labels), off + wire(labels).len())),
{
    lemma_labels_read(b, off, MAX_JUMPS as nat, Seq::empty(), labels);
    if labels.len() == 0 {
        assert(dotted(labels) =~= Seq::<char>::empty());
    }
}

/// A pointer stands for the name it points at: two bytes with the upper two bits of
/// the first set, and the offset in the rest. Sixteen may be followed in a row.
pub proof fn lemma_pointers_stand_for_names(b: Seq<u8>, off: int, labels: Seq<Seq<char>>)
    requires
        0 <= off,
        off + 1 < b.len(),
        b[off] >= 192,
        ({
            let to = (b[off] - 192) * 256 + b[off + 1];
            &&& to + wire(labels).len() <= b.len()
            &&& b.subrange(to, to + wire(labels).len()) == wire(labels)
        }),
        forall|i: int| 0 <= i < labels.len() ==> is_label(#[trigger] labels[i]),
    ensures
        name_at(b, off) == Some((dotted(labels), off + 2)),
        MAX_JUMPS == 16,
{
    let to = (b[off] - 192) * 256 + b[off + 1];
    lemma_labels_read(b, to, (MAX_JUMPS - 1) as nat, Seq::empty(), labels);
    assert(wire(labels).len() > 0);
    if labels.len() == 0 {
        assert(dotted(labels) =~= Seq::<char>::empty());
    }
}

/// A name that runs off the end of its message cannot be read, and neither can one
/// that needs more pointers than may be followed.
pub proof fn lemma_broken_names_are_refused(b: Seq<u8>, off: int, jumps: nat, name: Seq<char>)
    ensures
        off < 0 || off >= b.len() ==> name_from(b, off, jumps, name) is None,
        0 <= off < b.len() && 0 < b[off] < 192 && off + 1 + b[off] >= b.len() ==> name_from(
            b,
            off,
            jumps,
            name,
        ) is None,
        0 <= off < b.len() && b[off] >= 192 && (jumps == 0 || off + 1 >= b.len()) ==> name_from(
            b,
            off,
            jumps,
            name,
        ) is None,
{
    if 0 <= off < b.len() && 0 < b[off] < 192 && off + 1 + b[off] == b.len() {
        let next = crate::dns::with_label(
            name,
            lossy(b.subrange(off + 1, off + 1 + b[off])),
        );
        assert(name_from(b, off + 1 + b[off], jumps, next) is None);
    }
}

// ---------------------------------------------------------------------------
// The cache.
// ---------------------------------------------------------------------------

/// A name that was learned stays known until its address gets another: it is given
/// up only where more than 4096 are known and it is an hour old.
pub proof fn lemma_names_stay_known(m: Names, b: Seq<u8>, now: u64, ip: IpAddr)
    requires
        m.contains_key(ip),
        response(b) matches Some((_, ips)) ==> !ips.contains(ip),
    ensures
        now < m[ip].1 || now - m[ip].1 < 3_600_000_000_000 ==> observed(m, b, now).contains_key(ip),
        observed(m, b, now).contains_key(ip) ==> observed(m, b, now)[ip] == m[ip],
        response(b) is None && m.dom().len() <= 4096 ==> observed(m, b, now) == m,
{
    lemma_other_names_stay(m, b, now, ip);
}

/// While there is room nothing is given up, however old it is.
pub proof fn lemma_old_names_stay_while_there_is_room(m: Names, b: Seq<u8>, now: u64, ip: IpAddr)
    requires
        m.contains_key(ip),
        response(b) matches Some((_, ips)) ==> m.dom().finite() && m.dom().len() + ips.len()
            <= 4096,
        response(b) is None ==> m.dom().len() <= 4096,
    ensures
        observed(m, b, now).contains_key(ip),
{
    if let Some((name, ips)) = response(b) {
        lemma_learned_size(m, name, ips, now);
        crate::dns::lemma_learned(m, name, ips, now, ip);
    }
}

proof fn lemma_learned_size(m: Names, name: Seq<char>, ips: Seq<IpAddr>, now: u64)
    requires
        m.dom().finite(),
    ensures
        crate::dns::learned(m, name, ips, now).dom().finite(),
        crate::dns::learned(m, name, ips, now).dom().len() <= m.dom().len() + ips.len(),
    decreases ips.len(),
{
    if ips.len() > 0 {
        let h = crate::dns::learned(m, name, ips.drop_last(), now);
        lemma_learned_size(m, name, ips.drop_last(), now);
        assert(h.insert(ips.last(), (name, now)).dom() =~= h.dom().insert(ips.last()));
    }
}

/// Where there are too many names, those that are an hour old go.
pub proof fn lemma_old_names_go(m: Names, b: Seq<u8>, now: u64, ip: IpAddr)
    requires
        m.contains_key(ip),
        now - m[ip].1 >= 3_600_000_000_000,
        response(b) is None ==> m.dom().len() > 4096,
        response(b) matches Some((name, ips)) ==> !ips.contains(ip) && crate::dns::learned(
            m,
            name,
            ips,
            now,
        ).dom().len() > 4096,
    ensures
        !observed(m, b, now).contains_key(ip),
{
    if let Some((name, ips)) = response(b) {
        crate::dns::lemma_learned(m, name, ips, now, ip);
    }
}

} // verus!
