//! Who is named as the owner of a flow, said of the sockets that a scan found.
use crate::addr::IpAddr;
use crate::procinfo::{
    endpoint_of, is_daemon_line, known_path, owner_of, scanned, Attribution, Confidence, ProbeEntry,
    SocketRow, TablesView, Tuple,
};
use crate::resolver::{holds_port, needs_scan, ResolverView};
use crate::socket_laws::{
    any_bound, any_connects, any_holds, connects, is_bound, is_fought_over, is_shared,
    lemma_exact_keys, lemma_local_keys, lemma_port_keys,
};
use vstd::prelude::*;

verus! {

/// Is this address the wildcard of its family?
pub proof fn lemma_wildcard_addresses(a: IpAddr)
    ensures
        a.unspecified() <==> (match a {
            IpAddr::V4(p, q, r, s) => p == 0 && q == 0 && r == 0 && s == 0,
            IpAddr::V6(p, q, r, s, t, u, v, w) => p == 0 && q == 0 && r == 0 && s == 0 && t == 0
                && u == 0 && v == 0 && w == 0,
        }),
{
}

proof fn lemma_last_connected(rows: Seq<SocketRow>, t: Tuple, i: int)
    requires
        0 <= i < rows.len(),
        connects(rows[i], t),
        forall|j: int| i < j < rows.len() ==> !connects(#[trigger] rows[j], t),
    ensures
        scanned(rows).exact.contains_key(t),
        scanned(rows).exact[t] == rows[i].owner,
    decreases rows.len(),
{
    let h = rows.drop_last();
    let n = h.len() as int;
    if i < n {
        assert forall|j: int| i < j < n implies !connects(#[trigger] h[j], t) by {
            assert(h[j] == rows[j]);
        }
        assert(h[i] == rows[i]);
        lemma_last_connected(h, t, i);
        assert(!connects(rows[n], t));
    }
}

proof fn lemma_first_bound(rows: Seq<SocketRow>, k: (u8, IpAddr, u16), i: int)
    requires
        0 <= i < rows.len(),
        is_bound(rows[i], k),
        forall|j: int| 0 <= j < i ==> !is_bound(#[trigger] rows[j], k),
    ensures
        scanned(rows).local.contains_key(k),
        scanned(rows).local[k] == rows[i].owner,
    decreases rows.len(),
{
    let h = rows.drop_last();
    let n = h.len() as int;
    assert forall|j: int| 0 <= j < n implies #[trigger] h[j] == rows[j] by {}
    if i < n {
        lemma_first_bound(h, k, i);
    } else {
        lemma_local_keys(h, k);
        if any_bound(h, k) {
            let j = choose|j: int| 0 <= j < h.len() && is_bound(#[trigger] h[j], k);
            assert(is_bound(rows[j], k));
        }
    }
}

proof fn lemma_first_holder(rows: Seq<SocketRow>, k: (u8, u16), i: int)
    requires
        0 <= i < rows.len(),
        holds_port(rows[i], k.0, k.1),
        forall|j: int| 0 <= j < i ==> !holds_port(#[trigger] rows[j], k.0, k.1),
    ensures
        scanned(rows).port.contains_key(k),
        scanned(rows).port[k] == rows[i].owner,
    decreases rows.len(),
{
    let h = rows.drop_last();
    let n = h.len() as int;
    assert forall|j: int| 0 <= j < n implies #[trigger] h[j] == rows[j] by {}
    if i < n {
        lemma_first_holder(h, k, i);
    } else {
        lemma_port_keys(h, k);
        if any_holds(h, k) {
            let j = choose|j: int| 0 <= j < h.len() && holds_port(#[trigger] h[j], k.0, k.1);
            assert(holds_port(rows[j], k.0, k.1));
        }
    }
}

/// The owner of a connected socket is named for the flow between its two ends, in
/// both directions of travel; of several such sockets the last one found counts.
pub proof fn lemma_connected_sockets_name_their_owner(
    rows: Seq<SocketRow>,
    t: Tuple,
    outbound: bool,
    i: int,
)
    requires
        0 <= i < rows.len(),
        rows[i].proto == t.proto,
        rows[i].local == Some((t.src, t.sport)),
        rows[i].peer == Some((t.dst, t.dport)),
        forall|j: int|
            i < j < rows.len() ==> (#[trigger] rows[j]).proto != t.proto || rows[j].local != Some(
                (t.src, t.sport),
            ) || rows[j].peer != Some((t.dst, t.dport)),
    ensures
        owner_of(scanned(rows), t, outbound) == Some(
            Attribution { owner: rows[i].owner, confidence: Confidence::Exact },
        ),
{
    lemma_last_connected(rows, t, i);
}

/// Is no socket connected with the two ends of this flow?
pub open spec fn none_connected(rows: Seq<SocketRow>, t: Tuple) -> bool {
    forall|j: int|
        0 <= j < rows.len() ==> (#[trigger] rows[j]).proto != t.proto || rows[j].local != Some(
            (t.src, t.sport),
        ) || rows[j].peer != Some((t.dst, t.dport))
}

proof fn lemma_none_connected(rows: Seq<SocketRow>, t: Tuple)
    requires
        none_connected(rows, t),
    ensures
        !scanned(rows).exact.contains_key(t),
{
    lemma_exact_keys(rows, t);
    if any_connects(rows, t) {
        let j = choose|j: int| 0 <= j < rows.len() && connects(#[trigger] rows[j], t);
        assert(rows[j].proto == t.proto);
    }
}

/// A process with an unconnected socket on the local address and port of an
/// outbound flow is named for it, of either family, unless a second process has
/// one there too.
pub proof fn lemma_bound_sockets_name_their_owner(rows: Seq<SocketRow>, t: Tuple, i: int)
    requires
        none_connected(rows, t),
        t.src != IpAddr::V4(0, 0, 0, 0),
        t.src != IpAddr::V6(0, 0, 0, 0, 0, 0, 0, 0),
        0 <= i < rows.len(),
        rows[i].proto == t.proto,
        rows[i].peer is None,
        rows[i].local == Some((t.src, t.sport)),
        forall|j: int|
            0 <= j < rows.len() && (#[trigger] rows[j]).proto == t.proto && rows[j].peer is None
                && rows[j].local == Some((t.src, t.sport)) ==> rows[j].owner.pid
                == rows[i].owner.pid,
    ensures
        owner_of(scanned(rows), t, true) matches Some(a) && a.confidence == Confidence::Local
            && a.owner.pid == rows[i].owner.pid,
        (forall|j: int|
            0 <= j < i ==> (#[trigger] rows[j]).proto != t.proto || rows[j].peer is Some
                || rows[j].local != Some((t.src, t.sport))) ==> owner_of(scanned(rows), t, true)
            == Some(Attribution { owner: rows[i].owner, confidence: Confidence::Local }),
{
    let k = (t.proto, t.src, t.sport);
    lemma_none_connected(rows, t);
    lemma_local_keys(rows, k);
    assert(is_bound(rows[i], k));
    if is_fought_over(rows, k) {
        let (x, y) = choose|x: int, y: int|
            0 <= x < rows.len() && 0 <= y < rows.len() && is_bound(#[trigger] rows[x], k)
                && is_bound(#[trigger] rows[y], k) && rows[x].owner.pid != rows[y].owner.pid;
        assert(rows[x].owner.pid == rows[i].owner.pid && rows[y].owner.pid == rows[i].owner.pid);
    }
    if forall|j: int|
        0 <= j < i ==> (#[trigger] rows[j]).proto != t.proto || rows[j].peer is Some
            || rows[j].local != Some((t.src, t.sport)) {
        lemma_first_bound(rows, k, i);
    }
}

/// Has no process alone the local address and port of this flow: does no
/// unconnected socket stand there, or do those of two processes?
pub open spec fn none_bound_alone(rows: Seq<SocketRow>, t: Tuple) -> bool {
    ||| t.src == IpAddr::V4(0, 0, 0, 0)
    ||| t.src == IpAddr::V6(0, 0, 0, 0, 0, 0, 0, 0)
    ||| forall|j: int|
        0 <= j < rows.len() ==> (#[trigger] rows[j]).proto != t.proto || rows[j].peer is Some
            || rows[j].local != Some((t.src, t.sport))
    ||| exists|x: int, y: int|
        0 <= x < rows.len() && 0 <= y < rows.len() && (#[trigger] rows[x]).proto == t.proto
            && rows[x].peer is None && rows[x].local == Some((t.src, t.sport)) && (
        #[trigger] rows[y]).proto == t.proto && rows[y].peer is None && rows[y].local == Some(
            (t.src, t.sport),
        ) && rows[x].owner.pid != rows[y].owner.pid
}

proof fn lemma_none_bound_alone(rows: Seq<SocketRow>, t: Tuple)
    requires
        none_bound_alone(rows, t),
    ensures
        ({
            let k = (t.proto, t.src, t.sport);
            !scanned(rows).local.contains_key(k) || scanned(rows).contested_local.contains(k)
        }),
{
    let k = (t.proto, t.src, t.sport);
    lemma_local_keys(rows, k);
    if any_bound(rows, k) {
        let j = choose|j: int| 0 <= j < rows.len() && is_bound(#[trigger] rows[j], k);
        assert(rows[j].proto == t.proto);
        let (x, y) = choose|x: int, y: int|
            0 <= x < rows.len() && 0 <= y < rows.len() && (#[trigger] rows[x]).proto == t.proto
                && rows[x].peer is None && rows[x].local == Some((t.src, t.sport)) && (
            #[trigger] rows[y]).proto == t.proto && rows[y].peer is None && rows[y].local == Some(
                (t.src, t.sport),
            ) && rows[x].owner.pid != rows[y].owner.pid;
        assert(is_bound(rows[x], k) && is_bound(rows[y], k));
    }
}

/// Otherwise a process with an unconnected socket on the local port of an outbound
/// flow is named for it, on whatever address the socket is, unless a second process
/// has one on the same port.
pub proof fn lemma_port_holders_are_named(rows: Seq<SocketRow>, t: Tuple, i: int, on: IpAddr)
    requires
        none_connected(rows, t),
        none_bound_alone(rows, t),
        0 <= i < rows.len(),
        rows[i].proto == t.proto,
        rows[i].peer is None,
        rows[i].local == Some((on, t.sport)),
        forall|j: int|
            0 <= j < rows.len() && (#[trigger] rows[j]).proto == t.proto && rows[j].peer is None && (
            rows[j].local matches Some((_, p)) && p == t.sport) ==> rows[j].owner.pid
                == rows[i].owner.pid,
    ensures
        owner_of(scanned(rows), t, true) matches Some(a) && a.confidence == Confidence::Port
            && a.owner.pid == rows[i].owner.pid,
        (forall|j: int|
            0 <= j < i ==> (#[trigger] rows[j]).proto != t.proto || rows[j].peer is Some || !(
            rows[j].local matches Some((_, p)) && p == t.sport)) ==> owner_of(
            scanned(rows),
            t,
            true,
        ) == Some(Attribution { owner: rows[i].owner, confidence: Confidence::Port }),
{
    let k = (t.proto, t.sport);
    lemma_none_connected(rows, t);
    lemma_none_bound_alone(rows, t);
    lemma_port_keys(rows, k);
    assert(holds_port(rows[i], k.0, k.1));
    if is_shared(rows, k) {
        let (x, y) = choose|x: int, y: int|
            0 <= x < rows.len() && 0 <= y < rows.len() && holds_port(#[trigger] rows[x], k.0, k.1)
                && holds_port(#[trigger] rows[y], k.0, k.1) && rows[x].owner.pid
                != rows[y].owner.pid;
        assert(rows[x].owner.pid == rows[i].owner.pid && rows[y].owner.pid == rows[i].owner.pid);
    }
    if forall|j: int|
        0 <= j < i ==> (#[trigger] rows[j]).proto != t.proto || rows[j].peer is Some || !(
        rows[j].local matches Some((_, p)) && p == t.sport) {
        lemma_first_holder(rows, k, i);
    }
}

/// Nobody is named otherwise: not for an inbound flow without a connected socket,
/// and not for an outbound one whose port is nobody's, or two processes'.
pub proof fn lemma_nobody_is_named_otherwise(rows: Seq<SocketRow>, t: Tuple)
    requires
        none_connected(rows, t),
    ensures
        owner_of(scanned(rows), t, false) is None,
        none_bound_alone(rows, t) && (forall|j: int|
            0 <= j < rows.len() ==> (#[trigger] rows[j]).proto != t.proto || rows[j].peer is Some
                || !(rows[j].local matches Some((_, p)) && p == t.sport)) ==> owner_of(
            scanned(rows),
            t,
            true,
        ) is None,
        none_bound_alone(rows, t) && (exists|x: int, y: int|
            0 <= x < rows.len() && 0 <= y < rows.len() && (#[trigger] rows[x]).proto == t.proto
                && rows[x].peer is None && (rows[x].local matches Some((_, p)) && p == t.sport) && (
            #[trigger] rows[y]).proto == t.proto && rows[y].peer is None && (rows[y].local matches
            Some((_, p)) && p == t.sport) && rows[x].owner.pid != rows[y].owner.pid) ==> owner_of(
            scanned(rows),
            t,
            true,
        ) is None,
{
    let k = (t.proto, t.sport);
    lemma_none_connected(rows, t);
    lemma_port_keys(rows, k);
    if none_bound_alone(rows, t) {
        lemma_none_bound_alone(rows, t);
    }
    if any_holds(rows, k) {
        let j = choose|j: int| 0 <= j < rows.len() && holds_port(#[trigger] rows[j], k.0, k.1);
        assert(rows[j].proto == t.proto);
    }
    if exists|x: int, y: int|
        0 <= x < rows.len() && 0 <= y < rows.len() && (#[trigger] rows[x]).proto == t.proto
            && rows[x].peer is None && (rows[x].local matches Some((_, p)) && p == t.sport) && (
        #[trigger] rows[y]).proto == t.proto && rows[y].peer is None && (rows[y].local matches Some(
            (_, p),
        ) && p == t.sport) && rows[x].owner.pid != rows[y].owner.pid {
        let (x, y) = choose|x: int, y: int|
            0 <= x < rows.len() && 0 <= y < rows.len() && (#[trigger] rows[x]).proto == t.proto
                && rows[x].peer is None && (rows[x].local matches Some((_, p)) && p == t.sport) && (
            #[trigger] rows[y]).proto == t.proto && rows[y].peer is None && (rows[y].local matches
            Some((_, p)) && p == t.sport) && rows[x].owner.pid != rows[y].owner.pid;
        assert(holds_port(rows[x], k.0, k.1) && holds_port(rows[y], k.0, k.1));
        assert(is_shared(rows, k));
    }
}

// ---------------------------------------------------------------------------
// Scans.
// ---------------------------------------------------------------------------

/// A scan is called for exactly if nobody is named for a flow and either there was
/// no scan in the last three quarters of a second or the flow is not known to be
/// nobody's.
pub proof fn lemma_scans_are_called_for(v: ResolverView, t: Tuple, outbound: bool, now: u64)
    ensures
        needs_scan(v, t, outbound, now) <==> owner_of(v.tables, t, outbound) is None && ((
        v.last_scan matches Some(then) ==> now > then && now - then > 750_000_000)
            || !v.missed.contains_key(t)),
{
}

/// An end of a socket is read from its bytes: the family in the second, the port in
/// the next two, most significant first, and the address where its family has it. A
/// port of zero is no end.
pub proof fn lemma_ends_of_sockets(sa: Seq<u8>)
    ensures
        ({
            let port = sa[2] * 256 + sa[3];
            &&& port == 0 ==> endpoint_of(sa) is None
            &&& port != 0 && sa[1] == 2 ==> (endpoint_of(sa) matches Some((a, p)) && p == port && a
                == IpAddr::V4(sa[4], sa[5], sa[6], sa[7]))
            &&& port != 0 && sa[1] == 28 ==> (endpoint_of(sa) matches Some((a, p)) && p == port && a
                == crate::bytes::v6_at(sa, 8))
            &&& sa[1] != 2 && sa[1] != 28 ==> endpoint_of(sa) is None
        }),
{
}

/// A binary goes by its path; one that has none goes by its command, marked as
/// unknown.
pub proof fn lemma_paths_are_known(path: Seq<char>, command: Seq<char>)
    ensures
        path.len() > 0 ==> known_path(path, command) == path,
        path.len() == 0 ==> known_path(path, command) == "<unknown:"@ + command + ">"@,
{
    reveal_strlit(">");
    assert(seq!['>'] =~= ">"@);
}

/// Looking a flow up in the tables at hand changes nothing but that a flow that is
/// nobody's is remembered with the time.
pub proof fn lemma_lookups(v: ResolverView, t: Tuple, outbound: bool, now: u64)
    ensures
        ({
            let after = crate::resolver::after_lookup(v, t, outbound, now);
            &&& after.tables == v.tables
            &&& after.last_scan == v.last_scan
            &&& owner_of(v.tables, t, outbound) is None ==> after.missed == v.missed.insert(t, now)
            &&& owner_of(v.tables, t, outbound) is Some ==> after.missed == v.missed
        }),
{
}

/// A new scan replaces the tables; the flows that were nobody's in the last three
/// quarters of a second stay remembered, the older ones do not, and the flow asked
/// about is remembered exactly if the new tables do not know it either.
pub proof fn lemma_rescans(
    v: ResolverView,
    found: TablesView,
    t: Tuple,
    outbound: bool,
    now: u64,
    u: Tuple,
)
    ensures
        ({
            let after = crate::resolver::after_scan(v, found, t, outbound, now);
            let late = v.missed.contains_key(u) && (now >= v.missed[u] ==> now - v.missed[u]
                <= 750_000_000);
            &&& after.tables == found
            &&& after.last_scan == Some(now)
            &&& u != t ==> (after.missed.contains_key(u) <==> late)
            &&& u != t && late ==> after.missed[u] == v.missed[u]
            &&& owner_of(found, t, outbound) is None ==> after.missed.contains_key(t)
                && after.missed[t] == now
            &&& owner_of(found, t, outbound) is Some ==> (after.missed.contains_key(t) ==> {
                &&& v.missed.contains_key(t)
                &&& after.missed[t] == v.missed[t]
            })
        }),
{
}

/// The owner alone is the owner in what was found.
pub proof fn lemma_owners_alone(a: Option<Attribution>)
    ensures
        a is None ==> crate::resolver::owner_only(a) is None,
        a matches Some(x) ==> crate::resolver::owner_only(a) == Some(x.owner),
{
}

/// A daemon is recognised by its program, wherever it lies, and by its first
/// argument, which is a mode or the former name of one.
pub proof fn lemma_daemons_are_recognised(words: Seq<String>, dir: Seq<char>, name: Seq<char>)
    requires
        words.len() >= 2,
        words[0]@ == dir + seq!['/'] + name || words[0]@ == name,
        forall|i: int| 0 <= i < name.len() ==> name[i] != '/',
    ensures
        is_daemon_line(words) <==> name == "pfsnitch"@ && (words[1]@ == "visibility"@
            || words[1]@ == "enforcement"@ || words[1]@ == "listen"@ || words[1]@ == "enforce"@),
{
    assert(!crate::text::holds(name, crate::text::just('/'))) by {
        assert forall|i: int| 0 <= i < name.len() implies !crate::text::just('/')(
            #[trigger] name[i],
        ) by {}
    }
    crate::text::lemma_split_one(name, '/');
    lemma_last_part(dir, name);
}

proof fn lemma_last_part(dir: Seq<char>, name: Seq<char>)
    requires
        !crate::text::holds(name, crate::text::just('/')),
    ensures
        crate::text::split(dir + seq!['/'] + name, '/').last() == name,
        crate::text::split(dir + seq!['/'] + name, '/').len() > 0,
    decreases dir.len(),
{
    let slash = crate::text::just('/');
    crate::text::lemma_find(dir, slash);
    crate::text::lemma_split_one(name, '/');
    let i = crate::text::find(dir, slash);
    if i < dir.len() {
        let rest = dir.skip(i + 1);
        lemma_last_part(rest, name);
        assert(!crate::text::holds(dir.take(i), slash)) by {
            assert forall|j: int| 0 <= j < i implies !slash(#[trigger] dir.take(i)[j]) by {
                assert(dir.take(i)[j] == dir[j]);
            }
        }
        crate::text::lemma_split_first(dir.take(i), '/', rest + seq!['/'] + name);
        assert(dir.take(i) + seq!['/'] + (rest + seq!['/'] + name) =~= dir + seq!['/'] + name);
    } else {
        crate::text::lemma_split_first(dir, '/', name);
    }
}

/// A probe reports each connected socket with both ends, each local end that one
/// process has with that end, and each port that one process has and that no local
/// end has already; nothing that is contested, and nothing else.
pub proof fn lemma_sockets_are_reported(v: TablesView, e: ProbeEntry)
    ensures
        crate::procinfo::report(v).contains(e) <==> {
            let local = (e.proto, e.local, e.lport);
            let port = (e.proto, e.lport);
            match e.confidence {
                Confidence::Kernel => false,
                Confidence::Exact => e.peer is Some && ({
                    let t = Tuple {
                        proto: e.proto,
                        src: e.local,
                        sport: e.lport,
                        dst: (e.peer->0).0,
                        dport: (e.peer->0).1,
                    };
                    v.exact.contains_key(t) && v.exact[t] == e.owner
                }),
                Confidence::Local => e.peer is None && v.local.contains_key(local)
                    && v.local[local] == e.owner && !v.contested_local.contains(local),
                Confidence::Port => e.peer is None && e.local == IpAddr::V4(0, 0, 0, 0)
                    && v.port.contains_key(port) && v.port[port] == e.owner
                    && !v.contested_port.contains(port) && forall|a: IpAddr|
                    !#[trigger] v.local.contains_key((e.proto, a, e.lport)),
            }
        },
{
    let local = (e.proto, e.local, e.lport);
    let port = (e.proto, e.lport);
    match e.confidence {
        Confidence::Kernel => {},
        Confidence::Exact => {
            if let Some((dst, dport)) = e.peer {
                let t = Tuple { proto: e.proto, src: e.local, sport: e.lport, dst, dport };
                if v.exact.contains_key(t) && v.exact[t] == e.owner {
                    assert(e == crate::procinfo::exact_row(t, v.exact[t]));
                }
            }
        },
        Confidence::Local => {
            if v.local.contains_key(local) && v.local[local] == e.owner && e.peer is None {
                assert(e == crate::procinfo::local_row(local, v.local[local]));
            }
        },
        Confidence::Port => {
            assert(crate::procinfo::port_is_local(v, port) <==> exists|a: IpAddr| #[trigger]
                v.local.contains_key((e.proto, a, e.lport))) by {
                if crate::procinfo::port_is_local(v, port) {
                    let l = choose|l: (u8, IpAddr, u16)| #[trigger]
                        v.local.contains_key(l) && l.0 == port.0 && l.2 == port.1;
                    assert(v.local.contains_key((e.proto, l.1, e.lport)));
                }
            }
            if v.port.contains_key(port) && v.port[port] == e.owner && e.peer is None && e.local
                == IpAddr::V4(0, 0, 0, 0) {
                assert(e == crate::procinfo::port_row(port, v.port[port]));
            }
        },
    }
}

} // verus!
