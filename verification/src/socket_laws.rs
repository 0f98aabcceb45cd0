//! What holds of every report on sockets, whatever sockets there are and in
//! whatever order they were found.
use crate::addr::IpAddr;
use crate::procinfo::{
    exact_row, is_row, local_row, port_is_local, port_row, report, scanned, with_socket,
    with_unconnected, Confidence, Owner, ProbeEntry, SocketRow, TablesView, Tuple,
};
use crate::resolver::holds_port;
use vstd::prelude::*;

verus! {

/// Is this socket connected, with these two ends?
pub open spec fn connects(s: SocketRow, t: Tuple) -> bool {
    s.proto == t.proto && s.local == Some((t.src, t.sport)) && s.peer == Some((t.dst, t.dport))
}

/// Is this socket unconnected, and bound to this address and port?
pub open spec fn is_bound(s: SocketRow, k: (u8, IpAddr, u16)) -> bool {
    s.proto == k.0 && s.peer is None && s.local == Some((k.1, k.2)) && !k.1.unspecified()
}

/// Is some socket connected with these two ends?
pub open spec fn any_connects(rows: Seq<SocketRow>, t: Tuple) -> bool {
    exists|i: int| 0 <= i < rows.len() && connects(#[trigger] rows[i], t)
}

/// Is some socket bound to this address and port?
pub open spec fn any_bound(rows: Seq<SocketRow>, k: (u8, IpAddr, u16)) -> bool {
    exists|i: int| 0 <= i < rows.len() && is_bound(#[trigger] rows[i], k)
}

/// Do two processes have sockets that are bound to this address and port?
pub open spec fn is_fought_over(rows: Seq<SocketRow>, k: (u8, IpAddr, u16)) -> bool {
    exists|i: int, j: int|
        0 <= i < rows.len() && 0 <= j < rows.len() && is_bound(#[trigger] rows[i], k) && is_bound(
            #[trigger] rows[j],
            k,
        ) && rows[i].owner.pid != rows[j].owner.pid
}

/// Does some unconnected socket hold this port?
pub open spec fn any_holds(rows: Seq<SocketRow>, k: (u8, u16)) -> bool {
    exists|i: int| 0 <= i < rows.len() && holds_port(#[trigger] rows[i], k.0, k.1)
}

/// Do two processes have unconnected sockets on this port?
pub open spec fn is_shared(rows: Seq<SocketRow>, k: (u8, u16)) -> bool {
    exists|i: int, j: int|
        0 <= i < rows.len() && 0 <= j < rows.len() && holds_port(#[trigger] rows[i], k.0, k.1)
            && holds_port(#[trigger] rows[j], k.0, k.1) && rows[i].owner.pid != rows[j].owner.pid
}

/// Adding a socket by hand is finding it in a scan.
pub proof fn lemma_inserts_are_sockets(
    v: TablesView,
    t: Tuple,
    proto: u8,
    local: IpAddr,
    port: u16,
    o: Owner,
)
    ensures
        with_socket(
            v,
            SocketRow {
                owner: o,
                proto: t.proto,
                local: Some((t.src, t.sport)),
                peer: Some((t.dst, t.dport)),
            },
        ) == (TablesView { exact: v.exact.insert(t, o), ..v }),
        with_socket(v, SocketRow { owner: o, proto, local: Some((local, port)), peer: None })
            == with_unconnected(v, proto, local, port, o),
{
}

/// Both ends of a flow are known exactly if some socket connects them.
pub proof fn lemma_exact_keys(rows: Seq<SocketRow>, t: Tuple)
    ensures
        scanned(rows).exact.contains_key(t) <==> any_connects(rows, t),
    decreases rows.len(),
{
    if rows.len() > 0 {
        let h = rows.drop_last();
        let s = rows[rows.len() - 1];
        lemma_exact_keys(h, t);
        if any_connects(h, t) {
            let i = choose|i: int| 0 <= i < h.len() && connects(#[trigger] h[i], t);
            assert(connects(rows[i], t));
        }
        if any_connects(rows, t) && !connects(s, t) {
            let i = choose|i: int| 0 <= i < rows.len() && connects(#[trigger] rows[i], t);
            assert(connects(h[i], t));
        }
        if connects(s, t) {
            assert(connects(rows[rows.len() - 1], t));
        }
    }
}

/// A local end is known exactly if an unconnected socket is bound to it. It is contested
/// exactly if two processes are, and otherwise its owner is the one that is.
pub proof fn lemma_local_keys(rows: Seq<SocketRow>, k: (u8, IpAddr, u16))
    ensures
        ({
            let v = scanned(rows);
            &&& v.local.contains_key(k) <==> any_bound(rows, k)
            &&& v.contested_local.contains(k) <==> is_fought_over(rows, k)
            &&& v.local.contains_key(k) && !v.contested_local.contains(k) ==> forall|i: int|
                0 <= i < rows.len() && is_bound(#[trigger] rows[i], k) ==> rows[i].owner.pid
                    == v.local[k].pid
            &&& v.local.contains_key(k) ==> exists|i: int|
                0 <= i < rows.len() && is_bound(#[trigger] rows[i], k) && rows[i].owner.pid
                    == v.local[k].pid
        }),
    decreases rows.len(),
{
    if rows.len() > 0 {
        let h = rows.drop_last();
        let n = h.len() as int;
        let s = rows[n];
        let v = scanned(rows);
        let u = scanned(h);
        lemma_local_keys(h, k);
        assert forall|i: int| 0 <= i < n implies #[trigger] rows[i] == h[i] by {}
        if any_bound(h, k) {
            let i = choose|i: int|
                0 <= i < h.len() && is_bound(#[trigger] h[i], k) && h[i].owner.pid
                    == u.local[k].pid;
            assert(is_bound(rows[i], k));
            if is_bound(s, k) && s.owner.pid != u.local[k].pid {
                assert(is_bound(rows[n], k));
                assert(is_fought_over(rows, k));
            }
        }
        if is_fought_over(h, k) {
            let (i, j) = choose|i: int, j: int|
                0 <= i < h.len() && 0 <= j < h.len() && is_bound(#[trigger] h[i], k) && is_bound(
                    #[trigger] h[j],
                    k,
                ) && h[i].owner.pid != h[j].owner.pid;
            assert(is_bound(rows[i], k) && is_bound(rows[j], k));
        }
        if is_fought_over(rows, k) && !is_fought_over(h, k) {
            let (i, j) = choose|i: int, j: int|
                0 <= i < rows.len() && 0 <= j < rows.len() && is_bound(#[trigger] rows[i], k)
                    && is_bound(#[trigger] rows[j], k) && rows[i].owner.pid != rows[j].owner.pid;
            if i < n {
                assert(is_bound(h[i], k));
            }
            if j < n {
                assert(is_bound(h[j], k));
            }
        }
        if is_bound(s, k) {
            assert(is_bound(rows[n], k));
        } else if any_bound(rows, k) {
            let i = choose|i: int| 0 <= i < rows.len() && is_bound(#[trigger] rows[i], k);
            assert(is_bound(h[i], k));
        }
        if v.local.contains_key(k) && !v.contested_local.contains(k) {
            assert forall|i: int|
                0 <= i < rows.len() && is_bound(
                    #[trigger] rows[i],
                    k,
                ) implies rows[i].owner.pid == v.local[k].pid by {
                if i < n {
                    assert(is_bound(h[i], k));
                }
            }
        }
    }
}

/// A port is known exactly if some socket holds it. It is contested exactly if two
/// processes do, and otherwise its owner is the one that does.
pub proof fn lemma_port_keys(rows: Seq<SocketRow>, k: (u8, u16))
    ensures
        ({
            let v = scanned(rows);
            &&& v.port.contains_key(k) <==> any_holds(rows, k)
            &&& v.contested_port.contains(k) <==> is_shared(rows, k)
            &&& v.port.contains_key(k) && !v.contested_port.contains(k) ==> forall|i: int|
                0 <= i < rows.len() && holds_port(#[trigger] rows[i], k.0, k.1)
                    ==> rows[i].owner.pid == v.port[k].pid
            &&& v.port.contains_key(k) ==> exists|i: int|
                0 <= i < rows.len() && holds_port(#[trigger] rows[i], k.0, k.1)
                    && rows[i].owner.pid == v.port[k].pid
        }),
    decreases rows.len(),
{
    if rows.len() > 0 {
        let h = rows.drop_last();
        let n = h.len() as int;
        let s = rows[n];
        let v = scanned(rows);
        let u = scanned(h);
        lemma_port_keys(h, k);
        assert forall|i: int| 0 <= i < n implies #[trigger] rows[i] == h[i] by {}
        if any_holds(h, k) {
            let i = choose|i: int|
                0 <= i < h.len() && holds_port(#[trigger] h[i], k.0, k.1) && h[i].owner.pid
                    == u.port[k].pid;
            assert(holds_port(rows[i], k.0, k.1));
            if holds_port(s, k.0, k.1) && s.owner.pid != u.port[k].pid {
                assert(holds_port(rows[n], k.0, k.1));
                assert(is_shared(rows, k));
            }
        }
        if is_shared(h, k) {
            let (i, j) = choose|i: int, j: int|
                0 <= i < h.len() && 0 <= j < h.len() && holds_port(#[trigger] h[i], k.0, k.1)
                    && holds_port(#[trigger] h[j], k.0, k.1) && h[i].owner.pid != h[j].owner.pid;
            assert(holds_port(rows[i], k.0, k.1) && holds_port(rows[j], k.0, k.1));
        }
        if is_shared(rows, k) && !is_shared(h, k) {
            let (i, j) = choose|i: int, j: int|
                0 <= i < rows.len() && 0 <= j < rows.len() && holds_port(
                    #[trigger] rows[i],
                    k.0,
                    k.1,
                ) && holds_port(#[trigger] rows[j], k.0, k.1) && rows[i].owner.pid
                    != rows[j].owner.pid;
            if i < n {
                assert(holds_port(h[i], k.0, k.1));
            }
            if j < n {
                assert(holds_port(h[j], k.0, k.1));
            }
        }
        if holds_port(s, k.0, k.1) {
            assert(holds_port(rows[n], k.0, k.1));
        } else if any_holds(rows, k) {
            let i = choose|i: int| 0 <= i < rows.len() && holds_port(#[trigger] rows[i], k.0, k.1);
            assert(holds_port(h[i], k.0, k.1));
        }
        if v.port.contains_key(k) && !v.contested_port.contains(k) {
            assert forall|i: int|
                0 <= i < rows.len() && holds_port(
                    #[trigger] rows[i],
                    k.0,
                    k.1,
                ) implies rows[i].owner.pid == v.port[k].pid by {
                if i < n {
                    assert(holds_port(h[i], k.0, k.1));
                }
            }
        }
    }
}

/// Do two rows show the same socket?
pub open spec fn same_socket(a: ProbeEntry, b: ProbeEntry) -> bool {
    a.proto == b.proto && a.local == b.local && a.lport == b.lport && a.peer == b.peer
}

/// No socket is reported twice, and exactly the connected ones are reported with
/// their peer.
pub proof fn lemma_no_socket_twice(rows: Seq<SocketRow>, a: ProbeEntry, b: ProbeEntry)
    requires
        report(scanned(rows)).contains(a),
        report(scanned(rows)).contains(b),
    ensures
        same_socket(a, b) ==> a == b,
        a.peer is Some <==> a.confidence == Confidence::Exact,
{
    let v = scanned(rows);
    assert(is_row(v, a) && is_row(v, b));
    if same_socket(a, b) {
        if a.confidence == Confidence::Local && b.confidence == Confidence::Port {
            lemma_local_keys(rows, (a.proto, a.local, a.lport));
        }
        if a.confidence == Confidence::Port && b.confidence == Confidence::Local {
            lemma_local_keys(rows, (b.proto, b.local, b.lport));
        }
    }
}

/// Every connected socket is reported as such, and no other is.
pub proof fn lemma_connected_sockets_are_reported(rows: Seq<SocketRow>, t: Tuple)
    ensures
        any_connects(rows, t) <==> exists|o: Owner| #[trigger]
            report(scanned(rows)).contains(exact_row(t, o)),
{
    let v = scanned(rows);
    lemma_exact_keys(rows, t);
    if any_connects(rows, t) {
        assert(is_row(v, exact_row(t, v.exact[t])));
        assert(report(v).contains(exact_row(t, v.exact[t])));
    }
    if exists|o: Owner| #[trigger] report(v).contains(exact_row(t, o)) {
        let o = choose|o: Owner| #[trigger] report(v).contains(exact_row(t, o));
        assert(is_row(v, exact_row(t, o)));
        let x = choose|x: Tuple| #[trigger]
            v.exact.contains_key(x) && exact_row(t, o) == exact_row(x, v.exact[x]);
        assert(x == t);
    }
}

/// An address and port that unconnected sockets are bound to are reported exactly
/// if the sockets are of one process, and as that process's.
pub proof fn lemma_bound_sockets_are_reported(rows: Seq<SocketRow>, k: (u8, IpAddr, u16))
    ensures
        any_bound(rows, k) && !is_fought_over(rows, k) <==> exists|o: Owner| #[trigger]
            report(scanned(rows)).contains(local_row(k, o)),
        forall|o: Owner, i: int|
            #![trigger report(scanned(rows)).contains(local_row(k, o)), rows[i]]
            report(scanned(rows)).contains(local_row(k, o)) && 0 <= i < rows.len() && is_bound(
                rows[i],
                k,
            ) ==> rows[i].owner.pid == o.pid,
{
    let v = scanned(rows);
    lemma_local_keys(rows, k);
    if any_bound(rows, k) && !is_fought_over(rows, k) {
        assert(is_row(v, local_row(k, v.local[k])));
        assert(report(v).contains(local_row(k, v.local[k])));
    }
    assert forall|o: Owner| #[trigger] report(v).contains(local_row(k, o)) implies any_bound(
        rows,
        k,
    ) && !is_fought_over(rows, k) && o == v.local[k] by {
        assert(is_row(v, local_row(k, o)));
        let x = choose|x: (u8, IpAddr, u16)| #[trigger]
            v.local.contains_key(x) && !v.contested_local.contains(x) && local_row(k, o)
                == local_row(x, v.local[x]);
        assert(x == k);
    }
}

/// Is some socket on this port bound to an address?
pub open spec fn any_bound_port(rows: Seq<SocketRow>, k: (u8, u16)) -> bool {
    exists|a: IpAddr| #[trigger] any_bound(rows, (k.0, a, k.1))
}

/// A port is reported without an address exactly if the unconnected sockets on it
/// are of one process and none of them is bound to an address; and as that
/// process's.
pub proof fn lemma_wildcard_sockets_are_reported(rows: Seq<SocketRow>, k: (u8, u16))
    ensures
        any_holds(rows, k) && !is_shared(rows, k) && !any_bound_port(rows, k) <==> exists|
            o: Owner,
        | #[trigger]
            report(scanned(rows)).contains(port_row(k, o)),
        forall|o: Owner, i: int|
            #![trigger report(scanned(rows)).contains(port_row(k, o)), rows[i]]
            report(scanned(rows)).contains(port_row(k, o)) && 0 <= i < rows.len() && holds_port(
                rows[i],
                k.0,
                k.1,
            ) ==> rows[i].owner.pid == o.pid,
{
    let v = scanned(rows);
    lemma_port_keys(rows, k);
    assert(port_is_local(v, k) <==> any_bound_port(rows, k)) by {
        if port_is_local(v, k) {
            let l = choose|l: (u8, IpAddr, u16)| #[trigger]
                v.local.contains_key(l) && l.0 == k.0 && l.2 == k.1;
            lemma_local_keys(rows, l);
            assert(l == (k.0, l.1, k.1));
            assert(any_bound(rows, (k.0, l.1, k.1)));
        }
        if any_bound_port(rows, k) {
            let a = choose|a: IpAddr| #[trigger] any_bound(rows, (k.0, a, k.1));
            lemma_local_keys(rows, (k.0, a, k.1));
            assert(v.local.contains_key((k.0, a, k.1)));
        }
    }
    if any_holds(rows, k) && !is_shared(rows, k) && !any_bound_port(rows, k) {
        assert(is_row(v, port_row(k, v.port[k])));
        assert(report(v).contains(port_row(k, v.port[k])));
    }
    assert forall|o: Owner| #[trigger] report(v).contains(port_row(k, o)) implies any_holds(rows, k)
        && !is_shared(rows, k) && !any_bound_port(rows, k) && o == v.port[k] by {
        assert(is_row(v, port_row(k, o)));
        let x = choose|x: (u8, u16)| #[trigger]
            v.port.contains_key(x) && !v.contested_port.contains(x)
                && !port_is_local(v, x) && port_row(k, o) == port_row(
                x,
                v.port[x],
            );
        assert(x == k);
    }
}

} // verus!
