//! Map a network 4-tuple to the process that owns it.
//!
//! A diverted packet carries no identity, so the sockets of every process are
//! listed and the flow is looked up among them. A connected socket is found by
//! its whole tuple. An unconnected one has no peer to match, so it is found by a
//! weaker key, and a weak key that two processes share is refused: naming the
//! wrong application is worse than naming none.
use crate::addr::IpAddr;
use crate::bytes::{be16, read16, read_v4, read_v6, v4_at, v6_at};
use crate::table::{Keyed, Pool, Table};
use crate::text::{chars_of, push_text, split, split_chars, string_of, word_is};
use vstd::prelude::*;

verus! {

// ---------------------------------------------------------------------------
// Owners, flows, confidence.
// ---------------------------------------------------------------------------

/// Identity of the process behind a socket. Policy keys on the path, never on
/// the command: a process name is trivially spoofed.
#[derive(Debug, PartialEq, Eq)]
pub struct Owner {
    pub pid: i32,
    pub command: String,
    pub path: String,
}

/// The 4-tuple identifying a flow.
#[derive(Debug, Clone, Copy, PartialEq, Eq, Structural, Hash)]
pub struct Tuple {
    pub proto: u8,
    pub src: IpAddr,
    pub sport: u16,
    pub dst: IpAddr,
    pub dport: u16,
}

/// How confidently an owner was identified.
#[derive(Debug, Clone, Copy, PartialEq, Eq, Structural)]
pub enum Confidence {
    /// The kernel recorded the owner when the socket was created.
    Kernel,
    /// A connected socket, matched on the full 4-tuple.
    Exact,
    /// An unconnected socket, matched on its local address and port.
    Local,
    /// An unconnected socket, matched on its local port alone.
    Port,
}

/// An owner, plus how it was found.
#[derive(Debug, PartialEq, Eq)]
pub struct Attribution {
    pub owner: Owner,
    pub confidence: Confidence,
}

/// One attributable socket.
#[derive(Debug)]
pub struct ProbeEntry {
    pub proto: u8,
    pub local: IpAddr,
    pub lport: u16,
    /// None for an unconnected socket: there is no peer to show.
    pub peer: Option<(IpAddr, u16)>,
    pub owner: Owner,
    pub confidence: Confidence,
}

/// A socket as a scan finds it: its owner, its protocol and its two ends, where
/// it has them.
#[derive(Debug)]
pub struct SocketRow {
    pub owner: Owner,
    pub proto: u8,
    pub local: Option<(IpAddr, u16)>,
    pub peer: Option<(IpAddr, u16)>,
}

impl Owner {
    /// A copy of this owner.
    pub fn dup(&self) -> (r: Owner)
        ensures
            r == *self,
    {
        Owner { pid: self.pid, command: self.command.clone(), path: self.path.clone() }
    }
}

impl Confidence {
    /// How a tier is spelled; prompts are given these words.
    pub open spec fn name(self) -> Seq<char> {
        match self {
            Confidence::Kernel => "kernel"@,
            Confidence::Exact => "exact"@,
            Confidence::Local => "local"@,
            Confidence::Port => "port"@,
        }
    }

    /// How a tier is spelled.
    pub fn as_str(self) -> (r: &'static str)
        ensures
            r@ == self.name(),
    {
        match self {
            Confidence::Kernel => "kernel",
            Confidence::Exact => "exact",
            Confidence::Local => "local",
            Confidence::Port => "port",
        }
    }
}

impl Keyed for Tuple {
    type K = Tuple;

    open spec fn key(&self) -> Tuple {
        *self
    }

    fn same_key(&self, other: &Self) -> (r: bool) {
        *self == *other
    }
}

impl Keyed for (u8, IpAddr, u16) {
    type K = (u8, IpAddr, u16);

    open spec fn key(&self) -> (u8, IpAddr, u16) {
        *self
    }

    fn same_key(&self, other: &Self) -> (r: bool) {
        self.0 == other.0 && self.1 == other.1 && self.2 == other.2
    }
}

impl Keyed for (u8, u16) {
    type K = (u8, u16);

    open spec fn key(&self) -> (u8, u16) {
        *self
    }

    fn same_key(&self, other: &Self) -> (r: bool) {
        self.0 == other.0 && self.1 == other.1
    }
}

// ---------------------------------------------------------------------------
// Tables.
// ---------------------------------------------------------------------------

/// Socket tables, one per confidence tier, and the weak keys that more than one
/// process claims.
pub struct Tables {
    pub exact: Table<Tuple, Owner>,
    pub local: Table<(u8, IpAddr, u16), Owner>,
    pub port: Table<(u8, u16), Owner>,
    pub contested_local: Pool<(u8, IpAddr, u16)>,
    pub contested_port: Pool<(u8, u16)>,
}

/// Socket tables as a value.
#[verifier::ext_equal]
pub ghost struct TablesView {
    pub exact: Map<Tuple, Owner>,
    pub local: Map<(u8, IpAddr, u16), Owner>,
    pub port: Map<(u8, u16), Owner>,
    pub contested_local: Set<(u8, IpAddr, u16)>,
    pub contested_port: Set<(u8, u16)>,
}

impl View for Tables {
    type V = TablesView;

    open spec fn view(&self) -> TablesView {
        TablesView {
            exact: self.exact@,
            local: self.local@,
            port: self.port@,
            contested_local: self.contested_local@.dom(),
            contested_port: self.contested_port@.dom(),
        }
    }
}

/// Tables without any socket.
pub open spec fn no_sockets() -> TablesView {
    TablesView {
        exact: Map::empty(),
        local: Map::empty(),
        port: Map::empty(),
        contested_local: Set::empty(),
        contested_port: Set::empty(),
    }
}

/// Tables in which one more process claims a local address and port. The first
/// claim counts; a claim by another process makes the key contested.
pub open spec fn with_local(v: TablesView, k: (u8, IpAddr, u16), o: Owner) -> TablesView {
    if !v.local.contains_key(k) {
        TablesView { local: v.local.insert(k, o), ..v }
    } else if v.local[k].pid != o.pid {
        TablesView { contested_local: v.contested_local.insert(k), ..v }
    } else {
        v
    }
}

/// Tables in which one more process claims a local port.
pub open spec fn with_port(v: TablesView, k: (u8, u16), o: Owner) -> TablesView {
    if !v.port.contains_key(k) {
        TablesView { port: v.port.insert(k, o), ..v }
    } else if v.port[k].pid != o.pid {
        TablesView { contested_port: v.contested_port.insert(k), ..v }
    } else {
        v
    }
}

/// Tables with one more unconnected socket. A packet can leave on an address the
/// socket never bound, so the port counts in any case.
pub open spec fn with_unconnected(
    v: TablesView,
    proto: u8,
    local: IpAddr,
    port: u16,
    o: Owner,
) -> TablesView {
    if local.unspecified() {
        with_port(v, (proto, port), o)
    } else {
        with_port(with_local(v, (proto, local, port), o), (proto, port), o)
    }
}

/// Tables with one more socket of a scan.
pub open spec fn with_socket(v: TablesView, s: SocketRow) -> TablesView {
    match (s.local, s.peer) {
        (Some((sa, sp)), Some((da, dp))) => TablesView {
            exact: v.exact.insert(
                Tuple { proto: s.proto, src: sa, sport: sp, dst: da, dport: dp },
                s.owner,
            ),
            ..v
        },
        (Some((sa, sp)), None) => with_unconnected(v, s.proto, sa, sp, s.owner),
        (None, _) => v,
    }
}

/// The tables that a scan gives.
pub open spec fn scanned(rows: Seq<SocketRow>) -> TablesView
    decreases rows.len(),
{
    if rows.len() == 0 {
        no_sockets()
    } else {
        with_socket(scanned(rows.drop_last()), rows.last())
    }
}

/// Who owns a flow, and how surely. Only outbound flows use the weak tiers: the
/// local end of an inbound packet is its destination, so matching its source
/// port would name a process that sent nothing.
pub open spec fn owner_of(v: TablesView, t: Tuple, outbound: bool) -> Option<Attribution> {
    let lk = (t.proto, t.src, t.sport);
    let pk = (t.proto, t.sport);
    if v.exact.contains_key(t) {
        Some(Attribution { owner: v.exact[t], confidence: Confidence::Exact })
    } else if !outbound {
        None
    } else if v.local.contains_key(lk) && !v.contested_local.contains(lk) {
        Some(Attribution { owner: v.local[lk], confidence: Confidence::Local })
    } else if v.port.contains_key(pk) && !v.contested_port.contains(pk) {
        Some(Attribution { owner: v.port[pk], confidence: Confidence::Port })
    } else {
        None
    }
}

/// Does some socket with a local address hold this port?
pub open spec fn port_is_local(v: TablesView, k: (u8, u16)) -> bool {
    exists|l: (u8, IpAddr, u16)| #[trigger] v.local.contains_key(l) && l.0 == k.0 && l.2 == k.1
}

/// The row that reports a connected socket.
pub open spec fn exact_row(t: Tuple, o: Owner) -> ProbeEntry {
    ProbeEntry {
        proto: t.proto,
        local: t.src,
        lport: t.sport,
        peer: Some((t.dst, t.dport)),
        owner: o,
        confidence: Confidence::Exact,
    }
}

/// The row that reports a socket with a local address.
pub open spec fn local_row(k: (u8, IpAddr, u16), o: Owner) -> ProbeEntry {
    ProbeEntry {
        proto: k.0,
        local: k.1,
        lport: k.2,
        peer: None,
        owner: o,
        confidence: Confidence::Local,
    }
}

/// The row that reports a socket by its port alone.
pub open spec fn port_row(k: (u8, u16), o: Owner) -> ProbeEntry {
    ProbeEntry {
        proto: k.0,
        local: IpAddr::V4(0, 0, 0, 0),
        lport: k.1,
        peer: None,
        owner: o,
        confidence: Confidence::Port,
    }
}

/// Is this row in the report? Contested keys are left out, and so is a port that
/// is reported with a local address already.
pub open spec fn is_row(v: TablesView, e: ProbeEntry) -> bool {
    match e.confidence {
        Confidence::Kernel => false,
        Confidence::Exact => exists|t: Tuple| #[trigger]
            v.exact.contains_key(t) && e == exact_row(t, v.exact[t]),
        Confidence::Local => exists|k: (u8, IpAddr, u16)| #[trigger]
            v.local.contains_key(k) && !v.contested_local.contains(k) && e == local_row(
                k,
                v.local[k],
            ),
        Confidence::Port => exists|k: (u8, u16)| #[trigger]
            v.port.contains_key(k) && !v.contested_port.contains(k) && !port_is_local(v, k) && e
                == port_row(k, v.port[k]),
    }
}

/// The rows of the report.
pub open spec fn report(v: TablesView) -> Set<ProbeEntry> {
    Set::new(|e: ProbeEntry| is_row(v, e))
}

impl Tables {
    /// No key is stored twice.
    pub open spec fn wf(&self) -> bool {
        &&& self.exact.wf()
        &&& self.local.wf()
        &&& self.port.wf()
        &&& self.contested_local.wf()
        &&& self.contested_port.wf()
    }

    /// Tables without any socket.
    pub fn new() -> (r: Tables)
        ensures
            r.wf(),
            r@ == no_sockets(),
    {
        let r = Tables {
            exact: Table::new(),
            local: Table::new(),
            port: Table::new(),
            contested_local: Table::new(),
            contested_port: Table::new(),
        };
        assert(r@ =~= no_sockets());
        r
    }

    /// A process claims a local address and port.
    pub fn add_local(&mut self, k: (u8, IpAddr, u16), o: &Owner)
        requires
            old(self).wf(),
        ensures
            final(self).wf(),
            final(self)@ == with_local(old(self)@, k, *o),
    {
        let claimed = match self.local.get(&k) {
            Some(prev) => Some(prev.pid),
            None => None,
        };
        match claimed {
            Some(pid) => {
                if pid != o.pid {
                    self.contested_local.insert(k, ());
                }
            },
            None => self.local.insert(k, o.dup()),
        }
        assert(self@ =~= with_local(old(self)@, k, *o));
    }

    /// A process claims a local port.
    pub fn add_port(&mut self, k: (u8, u16), o: &Owner)
        requires
            old(self).wf(),
        ensures
            final(self).wf(),
            final(self)@ == with_port(old(self)@, k, *o),
    {
        let claimed = match self.port.get(&k) {
            Some(prev) => Some(prev.pid),
            None => None,
        };
        match claimed {
            Some(pid) => {
                if pid != o.pid {
                    self.contested_port.insert(k, ());
                }
            },
            None => self.port.insert(k, o.dup()),
        }
        assert(self@ =~= with_port(old(self)@, k, *o));
    }

    /// Add a connected socket.
    pub fn insert_exact(&mut self, t: Tuple, o: Owner)
        requires
            old(self).wf(),
        ensures
            final(self).wf(),
            final(self)@ == (TablesView { exact: old(self)@.exact.insert(t, o), ..old(self)@ }),
    {
        self.exact.insert(t, o);
    }

    /// Add an unconnected socket.
    pub fn insert_unconnected(&mut self, proto: u8, local: IpAddr, port: u16, o: &Owner)
        requires
            old(self).wf(),
        ensures
            final(self).wf(),
            final(self)@ == with_unconnected(old(self)@, proto, local, port, *o),
    {
        if local.is_unspecified() {
            self.add_port((proto, port), o);
        } else {
            self.add_local((proto, local, port), o);
            self.add_port((proto, port), o);
        }
    }

    /// The tables that a scan gives.
    pub fn from_sockets(rows: &[SocketRow]) -> (r: Tables)
        ensures
            r.wf(),
            r@ == scanned(rows@),
    {
        let mut out = Tables::new();
        let n: usize = rows.len();
        assert(rows@.take(0) =~= Seq::<SocketRow>::empty());
        for i in 0..n
            invariant
                n == rows@.len(),
                out.wf(),
                out@ == scanned(rows@.take(i as int)),
        {
            let s = &rows[i];
            assert(rows@.take(i + 1).drop_last() =~= rows@.take(i as int));
            match (s.local, s.peer) {
                (Some((sa, sp)), Some((da, dp))) => {
                    out.insert_exact(
                        Tuple { proto: s.proto, src: sa, sport: sp, dst: da, dport: dp },
                        s.owner.dup(),
                    );
                },
                (Some((sa, sp)), None) => {
                    out.insert_unconnected(s.proto, sa, sp, &s.owner);
                },
                (None, _) => {},
            }
        }
        assert(rows@.take(n as int) =~= rows@);
        out
    }

    /// Look a flow up, strongest tier first.
    pub fn get(&self, t: &Tuple, outbound: bool) -> (r: Option<Attribution>)
        requires
            self.wf(),
        ensures
            r == owner_of(self@, *t, outbound),
    {
        if let Some(o) = self.exact.get(t) {
            return Some(Attribution { owner: o.dup(), confidence: Confidence::Exact });
        }
        if !outbound {
            return None;
        }
        let lk = (t.proto, t.src, t.sport);
        if !self.contested_local.contains(&lk) {
            if let Some(o) = self.local.get(&lk) {
                return Some(Attribution { owner: o.dup(), confidence: Confidence::Local });
            }
        }
        let pk = (t.proto, t.sport);
        if !self.contested_port.contains(&pk) {
            if let Some(o) = self.port.get(&pk) {
                return Some(Attribution { owner: o.dup(), confidence: Confidence::Port });
            }
        }
        None
    }

    fn has_local_port(&self, k: (u8, u16)) -> (r: bool)
        requires
            self.wf(),
        ensures
            r == port_is_local(self@, k),
    {
        let n: usize = self.local.slots.len();
        for i in 0..n
            invariant
                self.wf(),
                n == self.local.slots@.len(),
                forall|j: int|
                    0 <= j < i ==> {
                        let l = (#[trigger] self.local.slots@[j]).0;
                        !(l.0 == k.0 && l.2 == k.1)
                    },
        {
            let l = self.local.slots[i].0;
            if l.0 == k.0 && l.2 == k.1 {
                proof {
                    self.local.lemma_slot(i as int);
                    assert(self@.local.contains_key(l));
                }
                return true;
            }
        }
        proof {
            assert forall|l: (u8, IpAddr, u16)| #[trigger]
                self@.local.contains_key(l) && l.0 == k.0 && l.2 == k.1 implies false by {
                let j = self.local.lemma_key(l);
                assert(self.local.slots@[j].0 == l);
            }
        }
        false
    }

    /// One row per attributable socket. Every row that belongs in the report is
    /// there once, and no other is.
    pub fn entries(&self) -> (r: Vec<ProbeEntry>)
        requires
            self.wf(),
        ensures
            r@.no_duplicates(),
            r@.to_set() == report(self@),
    {
        let mut v: Vec<ProbeEntry> = Vec::new();
        let n: usize = self.exact.slots.len();
        for i in 0..n
            invariant
                self.wf(),
                n == self.exact.slots@.len(),
                exact_rows(self, v@, i as int),
        {
            let t = self.exact.slots[i].0;
            let o = self.exact.slots[i].1.dup();
            let ghost before = v@;
            v.push(
                ProbeEntry {
                    proto: t.proto,
                    local: t.src,
                    lport: t.sport,
                    peer: Some((t.dst, t.dport)),
                    owner: o,
                    confidence: Confidence::Exact,
                },
            );
            proof {
                lemma_exact_rows_step(self, before, i as int, v@);
            }
        }
        let m: usize = self.local.slots.len();
        proof {
            lemma_local_rows_start(self, v@);
        }
        for i in 0..m
            invariant
                self.wf(),
                m == self.local.slots@.len(),
                local_rows(self, v@, i as int),
        {
            let k = self.local.slots[i].0;
            let ghost before = v@;
            if !self.contested_local.contains(&k) {
                let o = self.local.slots[i].1.dup();
                v.push(
                    ProbeEntry {
                        proto: k.0,
                        local: k.1,
                        lport: k.2,
                        peer: None,
                        owner: o,
                        confidence: Confidence::Local,
                    },
                );
            }
            proof {
                lemma_local_rows_step(self, before, i as int, v@);
            }
        }
        let p: usize = self.port.slots.len();
        proof {
            lemma_port_rows_start(self, v@);
        }
        for i in 0..p
            invariant
                self.wf(),
                p == self.port.slots@.len(),
                port_rows(self, v@, i as int),
        {
            let k = self.port.slots[i].0;
            let ghost before = v@;
            if !self.contested_port.contains(&k) && !self.has_local_port(k) {
                let o = self.port.slots[i].1.dup();
                v.push(
                    ProbeEntry {
                        proto: k.0,
                        local: IpAddr::V4(0, 0, 0, 0),
                        lport: k.1,
                        peer: None,
                        owner: o,
                        confidence: Confidence::Port,
                    },
                );
            }
            proof {
                lemma_port_rows_step(self, before, i as int, v@);
            }
        }
        proof {
            lemma_rows_are_report(self, v@);
        }
        v
    }

    /// How many rows the report has.
    pub fn len(&self) -> (r: usize)
        requires
            self.wf(),
        ensures
            r == report(self@).len(),
    {
        let rows = self.entries();
        proof {
            rows@.unique_seq_to_set();
        }
        rows.len()
    }

    /// Is there nothing to report?
    pub fn is_empty(&self) -> (r: bool)
        requires
            self.wf(),
        ensures
            r == (report(self@).len() == 0),
    {
        self.len() == 0
    }
}

/// Is there a row for the entry of the given tier in its first `n` slots?
spec fn listed(ts: &Tables, e: ProbeEntry, a: int, b: int, c: int) -> bool {
    ||| exists|i: int|
        0 <= i < a && e == exact_row(
            (#[trigger] ts.exact.slots@[i]).0,
            ts.exact.slots@[i].1,
        )
    ||| exists|i: int|
        0 <= i < b && !ts@.contested_local.contains((#[trigger] ts.local.slots@[i]).0) && e
            == local_row(ts.local.slots@[i].0, ts.local.slots@[i].1)
    ||| exists|i: int|
        0 <= i < c && !ts@.contested_port.contains((#[trigger] ts.port.slots@[i]).0)
            && !port_is_local(ts@, ts.port.slots@[i].0) && e == port_row(
            ts.port.slots@[i].0,
            ts.port.slots@[i].1,
        )
}

/// The rows so far: each once, and exactly those of the slots seen.
spec fn rows_so_far(ts: &Tables, v: Seq<ProbeEntry>, a: int, b: int, c: int) -> bool {
    &&& v.no_duplicates()
    &&& forall|e: ProbeEntry| #[trigger] v.contains(e) <==> listed(ts, e, a, b, c)
}

spec fn exact_rows(ts: &Tables, v: Seq<ProbeEntry>, i: int) -> bool {
    rows_so_far(ts, v, i, 0, 0)
}

spec fn local_rows(ts: &Tables, v: Seq<ProbeEntry>, i: int) -> bool {
    rows_so_far(ts, v, ts.exact.slots@.len() as int, i, 0)
}

spec fn port_rows(ts: &Tables, v: Seq<ProbeEntry>, i: int) -> bool {
    rows_so_far(ts, v, ts.exact.slots@.len() as int, ts.local.slots@.len() as int, i)
}

proof fn lemma_push_row(v: Seq<ProbeEntry>, e: ProbeEntry)
    requires
        v.no_duplicates(),
        !v.contains(e),
    ensures
        v.push(e).no_duplicates(),
        forall|x: ProbeEntry| #[trigger] v.push(e).contains(x) <==> v.contains(x) || x == e,
{
    let w = v.push(e);
    assert forall|x: ProbeEntry| #[trigger] w.contains(x) <==> v.contains(x) || x == e by {
        if w.contains(x) {
            let i = choose|i: int| 0 <= i < w.len() && w[i] == x;
            if i < v.len() {
                assert(v[i] == x);
            }
        }
        if v.contains(x) {
            let i = choose|i: int| 0 <= i < v.len() && v[i] == x;
            assert(w[i] == x);
        }
        assert(w[v.len() as int] == e);
    }
    assert forall|i: int, j: int| 0 <= i < w.len() && 0 <= j < w.len() && i != j implies w[i]
        != w[j] by {
        if i == v.len() {
            assert(v.contains(v[j]));
        } else if j == v.len() {
            assert(v.contains(v[i]));
        }
    }
}

proof fn lemma_exact_rows_step(ts: &Tables, v: Seq<ProbeEntry>, i: int, w: Seq<ProbeEntry>)
    requires
        ts.wf(),
        0 <= i < ts.exact.slots@.len(),
        exact_rows(ts, v, i),
        w == v.push(exact_row(ts.exact.slots@[i].0, ts.exact.slots@[i].1)),
    ensures
        exact_rows(ts, w, i + 1),
{
    let e = exact_row(ts.exact.slots@[i].0, ts.exact.slots@[i].1);
    assert(!v.contains(e)) by {
        if v.contains(e) {
            assert(listed(ts, e, i, 0, 0));
            let j = choose|j: int|
                0 <= j < i && e == exact_row(
                    (#[trigger] ts.exact.slots@[j]).0,
                    ts.exact.slots@[j].1,
                );
            assert(ts.exact.keys()[j] == ts.exact.keys()[i]);
        }
    }
    lemma_push_row(v, e);
    assert forall|x: ProbeEntry| #[trigger] w.contains(x) <==> listed(ts, x, i + 1, 0, 0) by {
        assert(v.contains(x) <==> listed(ts, x, i, 0, 0));
        if listed(ts, x, i, 0, 0) {
            let j = choose|j: int|
                0 <= j < i && x == exact_row(
                    (#[trigger] ts.exact.slots@[j]).0,
                    ts.exact.slots@[j].1,
                );
            assert(x == exact_row(ts.exact.slots@[j].0, ts.exact.slots@[j].1));
        }
        if listed(ts, x, i + 1, 0, 0) {
            let j = choose|j: int|
                0 <= j < i + 1 && x == exact_row(
                    (#[trigger] ts.exact.slots@[j]).0,
                    ts.exact.slots@[j].1,
                );
            if j < i {
                assert(listed(ts, x, i, 0, 0));
            }
        }
        if x == e {
            assert(x == exact_row(ts.exact.slots@[i].0, ts.exact.slots@[i].1));
        }
    }
}

proof fn lemma_local_rows_start(ts: &Tables, v: Seq<ProbeEntry>)
    requires
        exact_rows(ts, v, ts.exact.slots@.len() as int),
    ensures
        local_rows(ts, v, 0),
{
}

proof fn lemma_port_rows_start(ts: &Tables, v: Seq<ProbeEntry>)
    requires
        local_rows(ts, v, ts.local.slots@.len() as int),
    ensures
        port_rows(ts, v, 0),
{
}

proof fn lemma_local_rows_step(ts: &Tables, v: Seq<ProbeEntry>, i: int, w: Seq<ProbeEntry>)
    requires
        ts.wf(),
        0 <= i < ts.local.slots@.len(),
        local_rows(ts, v, i),
        w == (if ts@.contested_local.contains(ts.local.slots@[i].0) {
            v
        } else {
            v.push(local_row(ts.local.slots@[i].0, ts.local.slots@[i].1))
        }),
    ensures
        local_rows(ts, w, i + 1),
{
    let a = ts.exact.slots@.len() as int;
    let e = local_row(ts.local.slots@[i].0, ts.local.slots@[i].1);
    let skip = ts@.contested_local.contains(ts.local.slots@[i].0);
    assert(!v.contains(e)) by {
        if v.contains(e) {
            assert(listed(ts, e, a, i, 0));
            let j = choose|j: int|
                0 <= j < i && !ts@.contested_local.contains((#[trigger] ts.local.slots@[j]).0) && e
                    == local_row(ts.local.slots@[j].0, ts.local.slots@[j].1);
            assert(ts.local.keys()[j] == ts.local.keys()[i]);
        }
    }
    lemma_push_row(v, e);
    assert forall|x: ProbeEntry| #[trigger] w.contains(x) <==> listed(ts, x, a, i + 1, 0) by {
        assert(v.contains(x) <==> listed(ts, x, a, i, 0));
        if !skip && x == e {
            assert(!ts@.contested_local.contains(ts.local.slots@[i].0));
            assert(listed(ts, x, a, i + 1, 0));
        }
        if listed(ts, x, a, i + 1, 0) && !listed(ts, x, a, i, 0) {
            let j = choose|j: int|
                0 <= j < i + 1 && !ts@.contested_local.contains((#[trigger] ts.local.slots@[j]).0)
                    && x == local_row(ts.local.slots@[j].0, ts.local.slots@[j].1);
            assert(j == i);
        }
    }
}

proof fn lemma_port_rows_step(ts: &Tables, v: Seq<ProbeEntry>, i: int, w: Seq<ProbeEntry>)
    requires
        ts.wf(),
        0 <= i < ts.port.slots@.len(),
        port_rows(ts, v, i),
        w == (if ts@.contested_port.contains(ts.port.slots@[i].0) || port_is_local(
            ts@,
            ts.port.slots@[i].0,
        ) {
            v
        } else {
            v.push(port_row(ts.port.slots@[i].0, ts.port.slots@[i].1))
        }),
    ensures
        port_rows(ts, w, i + 1),
{
    let a = ts.exact.slots@.len() as int;
    let b = ts.local.slots@.len() as int;
    let e = port_row(ts.port.slots@[i].0, ts.port.slots@[i].1);
    let skip = ts@.contested_port.contains(ts.port.slots@[i].0) || port_is_local(
        ts@,
        ts.port.slots@[i].0,
    );
    assert(!v.contains(e)) by {
        if v.contains(e) {
            assert(listed(ts, e, a, b, i));
            let j = choose|j: int|
                0 <= j < i && !ts@.contested_port.contains((#[trigger] ts.port.slots@[j]).0)
                    && !port_is_local(ts@, ts.port.slots@[j].0) && e == port_row(
                    ts.port.slots@[j].0,
                    ts.port.slots@[j].1,
                );
            assert(ts.port.keys()[j] == ts.port.keys()[i]);
        }
    }
    lemma_push_row(v, e);
    assert forall|x: ProbeEntry| #[trigger] w.contains(x) <==> listed(ts, x, a, b, i + 1) by {
        assert(v.contains(x) <==> listed(ts, x, a, b, i));
        if !skip && x == e {
            assert(!ts@.contested_port.contains(ts.port.slots@[i].0));
            assert(listed(ts, x, a, b, i + 1));
        }
        if listed(ts, x, a, b, i + 1) && !listed(ts, x, a, b, i) {
            let j = choose|j: int|
                0 <= j < i + 1 && !ts@.contested_port.contains((#[trigger] ts.port.slots@[j]).0)
                    && !port_is_local(ts@, ts.port.slots@[j].0) && x == port_row(
                    ts.port.slots@[j].0,
                    ts.port.slots@[j].1,
                );
            assert(j == i);
        }
    }
}

proof fn lemma_rows_are_report(ts: &Tables, v: Seq<ProbeEntry>)
    requires
        ts.wf(),
        port_rows(ts, v, ts.port.slots@.len() as int),
    ensures
        v.to_set() == report(ts@),
{
    let a = ts.exact.slots@.len() as int;
    let b = ts.local.slots@.len() as int;
    let c = ts.port.slots@.len() as int;
    assert forall|e: ProbeEntry| #[trigger] v.to_set().contains(e) <==> report(ts@).contains(e) by {
        assert(v.to_set().contains(e) <==> v.contains(e));
        assert(v.contains(e) <==> listed(ts, e, a, b, c));
        if listed(ts, e, a, b, c) {
            if exists|i: int|
                0 <= i < a && e == exact_row(
                    (#[trigger] ts.exact.slots@[i]).0,
                    ts.exact.slots@[i].1,
                ) {
                let i = choose|i: int|
                    0 <= i < a && e == exact_row(
                        (#[trigger] ts.exact.slots@[i]).0,
                        ts.exact.slots@[i].1,
                    );
                ts.exact.lemma_slot(i);
                assert(ts@.exact.contains_key(ts.exact.slots@[i].0));
            } else if exists|i: int|
                0 <= i < b && !ts@.contested_local.contains((#[trigger] ts.local.slots@[i]).0) && e
                    == local_row(ts.local.slots@[i].0, ts.local.slots@[i].1) {
                let i = choose|i: int|
                    0 <= i < b && !ts@.contested_local.contains((#[trigger] ts.local.slots@[i]).0)
                        && e == local_row(ts.local.slots@[i].0, ts.local.slots@[i].1);
                ts.local.lemma_slot(i);
                assert(ts@.local.contains_key(ts.local.slots@[i].0));
            } else {
                let i = choose|i: int|
                    0 <= i < c && !ts@.contested_port.contains((#[trigger] ts.port.slots@[i]).0)
                        && !port_is_local(ts@, ts.port.slots@[i].0) && e == port_row(
                        ts.port.slots@[i].0,
                        ts.port.slots@[i].1,
                    );
                ts.port.lemma_slot(i);
                assert(ts@.port.contains_key(ts.port.slots@[i].0));
            }
        }
        if is_row(ts@, e) {
            match e.confidence {
                Confidence::Kernel => {},
                Confidence::Exact => {
                    let t = choose|t: Tuple| #[trigger]
                        ts@.exact.contains_key(t) && e == exact_row(t, ts@.exact[t]);
                    let i = ts.exact.lemma_key(t);
                    assert(e == exact_row(ts.exact.slots@[i].0, ts.exact.slots@[i].1));
                },
                Confidence::Local => {
                    let k = choose|k: (u8, IpAddr, u16)| #[trigger]
                        ts@.local.contains_key(k) && !ts@.contested_local.contains(k) && e
                            == local_row(k, ts@.local[k]);
                    let i = ts.local.lemma_key(k);
                    assert(ts.local.slots@[i].0 == k);
                },
                Confidence::Port => {
                    let k = choose|k: (u8, u16)| #[trigger]
                        ts@.port.contains_key(k) && !ts@.contested_port.contains(k)
                            && !port_is_local(ts@, k) && e == port_row(k, ts@.port[k]);
                    let i = ts.port.lemma_key(k);
                    assert(ts.port.slots@[i].0 == k);
                },
            }
        }
    }
    assert(v.to_set() =~= report(ts@));
}

// ---------------------------------------------------------------------------
// Reading a scan.
// ---------------------------------------------------------------------------

/// The address family numbers of the kernel whose sockets are read.
pub const AF_INET: u8 = 2;

pub const AF_INET6: u8 = 28;

/// The shortest socket address that has room for either family.
pub const SOCKADDR_LEN: usize = 28;

/// The address and port in a socket address: the family in its second byte, then
/// the port, then the address. A port of zero means the socket is not bound, and
/// there is nothing to key a flow on.
pub open spec fn endpoint_of(sa: Seq<u8>) -> Option<(IpAddr, u16)> {
    if be16(sa, 2) == 0 {
        None
    } else if sa[1] == AF_INET {
        Some((v4_at(sa, 4), be16(sa, 2)))
    } else if sa[1] == AF_INET6 {
        Some((v6_at(sa, 8), be16(sa, 2)))
    } else {
        None
    }
}

/// Pull the address and port out of a kernel socket, either family.
pub fn endpoint(sa: &[u8]) -> (r: Option<(IpAddr, u16)>)
    requires
        sa@.len() >= SOCKADDR_LEN,
    ensures
        r == endpoint_of(sa@),
{
    let port = read16(sa, 2);
    if port == 0 {
        return None;
    }
    if sa[1] == AF_INET {
        Some((read_v4(sa, 4), port))
    } else if sa[1] == AF_INET6 {
        Some((read_v6(sa, 8), port))
    } else {
        None
    }
}

/// The path a process is known by. One whose binary is gone is known as such,
/// rather than by an empty path that no rule could sensibly key on.
pub open spec fn known_path(path: Seq<char>, command: Seq<char>) -> Seq<char> {
    if path.len() > 0 {
        path
    } else {
        "<unknown:"@ + command + seq!['>']
    }
}

/// The owner that a scan describes. `path` is empty where the kernel could not
/// name the binary.
pub fn owner_named(pid: i32, command: String, path: String) -> (r: Owner)
    ensures
        r.pid == pid,
        r.command == command,
        r.path@ == known_path(path@, command@),
{
    if !path.as_str().is_empty() {
        return Owner { pid, command, path };
    }
    let mut out: Vec<char> = Vec::new();
    push_text(&mut out, "<unknown:");
    push_text(&mut out, command.as_str());
    out.push('>');
    assert(out@ =~= known_path(path@, command@));
    Owner { pid, command, path: string_of(&out) }
}

/// The modes a daemon can be started in.
pub open spec fn is_mode_word(w: Seq<char>) -> bool {
    w == "visibility"@ || w == "enforcement"@ || w == "listen"@ || w == "enforce"@
}

/// Is this the command line of a daemon? Its program is called pfsnitch,
/// wherever it lies, and its first argument is a mode: other uses of the same
/// program do not count.
pub open spec fn is_daemon_line(words: Seq<String>) -> bool {
    words.len() >= 2 && split(words[0]@, '/').last() == "pfsnitch"@ && is_mode_word(words[1]@)
}

/// Is this the command line of a daemon?
pub fn is_daemon(words: &[String]) -> (r: bool)
    ensures
        r == is_daemon_line(words@),
{
    if words.len() < 2 {
        return false;
    }
    let program = chars_of(words[0].as_str());
    let parts = split_chars(&program, '/');
    let n: usize = parts.len();
    proof {
        lemma_split_some(program@, '/');
    }
    let last = &parts[n - 1];
    let arg = chars_of(words[1].as_str());
    word_is(last, "pfsnitch") && (word_is(&arg, "visibility") || word_is(&arg, "enforcement")
        || word_is(&arg, "listen") || word_is(&arg, "enforce"))
}

proof fn lemma_split_some(s: Seq<char>, c: char)
    ensures
        split(s, c).len() > 0,
{
}

/// Is a daemon running among these processes, other than the one that asks?
pub fn daemon_running(procs: &[(i32, Vec<String>)], me: i32) -> (r: bool)
    ensures
        r == exists|i: int|
            0 <= i < procs@.len() && (#[trigger] procs@[i]).0 != me && is_daemon_line(
                procs@[i].1@,
            ),
{
    let n: usize = procs.len();
    for i in 0..n
        invariant
            n == procs@.len(),
            forall|j: int|
                0 <= j < i ==> (#[trigger] procs@[j]).0 == me || !is_daemon_line(procs@[j].1@),
    {
        if procs[i].0 != me && is_daemon(procs[i].1.as_slice()) {
            return true;
        }
    }
    false
}

} // verus!
