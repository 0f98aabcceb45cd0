//! Cached attribution.
//!
//! A walk over every process costs milliseconds, so its result is kept: a flow
//! that is found needs no walk, and a flow that was missed is not walked for
//! again until the tables are stale. Walks for other flows in the meantime renew
//! the tables, but do not make a missed flow new.
use crate::addr::IpAddr;
use crate::procinfo::{
    no_sockets, owner_of, scanned, with_local, with_port, with_unconnected, Attribution, Confidence,
    Owner, SocketRow, Tables, TablesView, Tuple,
};
use crate::seen::elapsed;
use crate::table::Table;
use vstd::prelude::*;

verus! {

/// How long a scan stays fresh, in nanoseconds.
pub const SCAN_TTL: u64 = 750_000_000;

/// The tables of the last scan, when it was made, and the flows that were missed
/// of late, each with the time when it was last asked about.
pub struct Resolver {
    pub tables: Tables,
    pub last_scan: Option<u64>,
    pub missed: Table<Tuple, u64>,
}

/// A resolver as a value.
#[verifier::ext_equal]
pub ghost struct ResolverView {
    pub tables: TablesView,
    pub last_scan: Option<u64>,
    pub missed: Map<Tuple, u64>,
}

impl View for Resolver {
    type V = ResolverView;

    open spec fn view(&self) -> ResolverView {
        ResolverView { tables: self.tables@, last_scan: self.last_scan, missed: self.missed@ }
    }
}

/// Is the last scan too old?
pub open spec fn is_stale(last_scan: Option<u64>, now: u64) -> bool {
    match last_scan {
        Some(t) => elapsed(t, now) > SCAN_TTL,
        None => true,
    }
}

/// Does a flow call for a new scan? Only if the tables do not know it, and they
/// are stale or it has not been missed yet.
pub open spec fn needs_scan(v: ResolverView, t: Tuple, outbound: bool, now: u64) -> bool {
    owner_of(v.tables, t, outbound) is None && (is_stale(v.last_scan, now)
        || !v.missed.contains_key(t))
}

/// The misses that are not too old to count.
pub open spec fn recent(m: Map<Tuple, u64>, now: u64) -> Map<Tuple, u64> {
    Map::new(
        |t: Tuple| m.contains_key(t) && elapsed(m[t], now) <= SCAN_TTL,
        |t: Tuple| m[t],
    )
}

/// The misses once a flow has been looked up in some tables.
pub open spec fn with_miss(
    m: Map<Tuple, u64>,
    tables: TablesView,
    t: Tuple,
    outbound: bool,
    now: u64,
) -> Map<Tuple, u64> {
    if owner_of(tables, t, outbound) is None {
        m.insert(t, now)
    } else {
        m
    }
}

/// A resolver that has answered from the tables it has.
pub open spec fn after_lookup(v: ResolverView, t: Tuple, outbound: bool, now: u64) -> ResolverView {
    ResolverView { missed: with_miss(v.missed, v.tables, t, outbound, now), ..v }
}

/// A resolver that was given the tables of a new scan, asked about a flow. The
/// other flows that were missed of late stay missed.
pub open spec fn after_scan(
    v: ResolverView,
    tables: TablesView,
    t: Tuple,
    outbound: bool,
    now: u64,
) -> ResolverView {
    ResolverView {
        tables,
        last_scan: Some(now),
        missed: with_miss(recent(v.missed, now), tables, t, outbound, now),
    }
}

impl Resolver {
    /// No key is stored twice.
    pub open spec fn wf(&self) -> bool {
        self.tables.wf() && self.missed.wf()
    }

    /// A resolver that has not scanned yet.
    pub fn new() -> (r: Resolver)
        ensures
            r.wf(),
            r@ == (ResolverView { tables: no_sockets(), last_scan: None, missed: Map::empty() }),
    {
        Resolver { tables: Tables::new(), last_scan: None, missed: Table::new() }
    }

    /// Does this flow call for a new scan?
    pub fn wants_scan(&self, t: &Tuple, outbound: bool, now: u64) -> (r: bool)
        requires
            self.wf(),
        ensures
            r == needs_scan(self@, *t, outbound, now),
    {
        if self.tables.get(t, outbound).is_some() {
            return false;
        }
        let stale = match self.last_scan {
            Some(s) => now > s && now - s > SCAN_TTL,
            None => true,
        };
        stale || !self.missed.contains(t)
    }

    /// Forget the misses that are too old to count.
    fn expire(&mut self, now: u64)
        requires
            old(self).wf(),
        ensures
            final(self).wf(),
            final(self)@ == (ResolverView {
                missed: recent(old(self)@.missed, now),
                ..old(self)@
            }),
    {
        let ghost all = self.missed@;
        let ghost rest = self@;
        let mut i: usize = 0;
        while i < self.missed.slots.len()
            invariant
                self.wf(),
                self.tables@ == rest.tables,
                self.last_scan == rest.last_scan,
                i <= self.missed.slots@.len(),
                forall|j: int|
                    0 <= j < i ==> elapsed((#[trigger] self.missed.slots@[j]).1, now) <= SCAN_TTL,
                forall|t: Tuple| #[trigger]
                    self.missed@.contains_key(t) ==> all.contains_key(t) && self.missed@[t]
                        == all[t],
                forall|t: Tuple|
                    all.contains_key(t) && elapsed(all[t], now) <= SCAN_TTL
                        ==> #[trigger] self.missed@.contains_key(t),
            decreases self.missed.slots@.len() - i,
        {
            let asked: u64 = self.missed.slots[i].1;
            if now >= asked && now - asked > SCAN_TTL {
                let ghost before = self.missed;
                proof {
                    before.lemma_slot(i as int);
                }
                self.missed.remove_at(i);
                proof {
                    let gone = before.slots@[i as int].0;
                    assert(before@.contains_key(gone) && before@[gone] == asked);
                    assert forall|t: Tuple|
                        all.contains_key(t) && elapsed(
                            all[t],
                            now,
                        ) <= SCAN_TTL implies #[trigger] self.missed@.contains_key(t) by {
                        assert(before@.contains_key(t));
                    }
                }
            } else {
                i = i + 1;
            }
        }
        proof {
            assert forall|t: Tuple| #[trigger] self.missed@.contains_key(t) implies elapsed(
                self.missed@[t],
                now,
            ) <= SCAN_TTL by {
                let j = self.missed.lemma_key(t);
                assert(elapsed(self.missed.slots@[j].1, now) <= SCAN_TTL);
            }
            assert(self.missed@ =~= recent(all, now));
        }
    }

    /// Look a flow up in the tables at hand, and remember it if it is missed.
    fn look_up(&mut self, t: &Tuple, outbound: bool, now: u64) -> (r: Option<Attribution>)
        requires
            old(self).wf(),
        ensures
            final(self).wf(),
            r == owner_of(old(self)@.tables, *t, outbound),
            final(self)@ == after_lookup(old(self)@, *t, outbound, now),
    {
        let r = self.tables.get(t, outbound);
        if r.is_none() {
            self.missed.insert(*t, now);
        }
        r
    }

    /// Take the tables of a new scan and look a flow up in them.
    pub fn rescan(&mut self, tables: Tables, t: &Tuple, outbound: bool, now: u64) -> (r: Option<
        Attribution,
    >)
        requires
            old(self).wf(),
            tables.wf(),
        ensures
            final(self).wf(),
            r == owner_of(tables@, *t, outbound),
            final(self)@ == after_scan(old(self)@, tables@, *t, outbound, now),
    {
        self.expire(now);
        self.tables = tables;
        self.last_scan = Some(now);
        self.look_up(t, outbound, now)
    }

    /// Resolve a flow to its owner, calling `scan` for new tables at most once,
    /// and only if the flow calls for it. `now` is a reading of a monotonic
    /// clock, in nanoseconds.
    pub fn resolve<F: FnOnce() -> Tables>(
        &mut self,
        t: &Tuple,
        outbound: bool,
        now: u64,
        scan: F,
    ) -> (r: Option<Attribution>)
        requires
            old(self).wf(),
            call_requires(scan, ()),
            forall|tables: Tables| call_ensures(scan, (), tables) ==> tables.wf(),
        ensures
            final(self).wf(),
            !needs_scan(old(self)@, *t, outbound, now) ==> r == owner_of(
                old(self)@.tables,
                *t,
                outbound,
            ) && final(self)@ == after_lookup(old(self)@, *t, outbound, now),
            needs_scan(old(self)@, *t, outbound, now) ==> exists|tables: Tables| #[trigger]
                call_ensures(scan, (), tables) && r == owner_of(tables@, *t, outbound)
                    && final(self)@ == after_scan(old(self)@, tables@, *t, outbound, now),
    {
        if self.wants_scan(t, outbound, now) {
            let tables = scan();
            self.rescan(tables, t, outbound, now)
        } else {
            self.look_up(t, outbound, now)
        }
    }

    /// The owner only, for callers that do not care how it was found.
    pub fn owner<F: FnOnce() -> Tables>(&mut self, t: &Tuple, now: u64, scan: F) -> (r: Option<Owner>)
        requires
            old(self).wf(),
            call_requires(scan, ()),
            forall|tables: Tables| call_ensures(scan, (), tables) ==> tables.wf(),
        ensures
            final(self).wf(),
            !needs_scan(old(self)@, *t, true, now) ==> r == owner_only(
                owner_of(old(self)@.tables, *t, true),
            ) && final(self)@ == after_lookup(old(self)@, *t, true, now),
            needs_scan(old(self)@, *t, true, now) ==> exists|tables: Tables| #[trigger]
                call_ensures(scan, (), tables) && r == owner_only(owner_of(tables@, *t, true))
                    && final(self)@ == after_scan(old(self)@, tables@, *t, true, now),
    {
        match self.resolve(t, true, now, scan) {
            Some(a) => Some(a.owner),
            None => None,
        }
    }
}

/// The owner in an attribution.
pub open spec fn owner_only(a: Option<Attribution>) -> Option<Owner> {
    match a {
        Some(x) => Some(x.owner),
        None => None,
    }
}

// ---------------------------------------------------------------------------
// What holds of every resolver.
// ---------------------------------------------------------------------------

/// One question to a resolver: a flow, a time, and what a scan at that time would
/// find.
pub ghost struct Ask {
    pub flow: Tuple,
    pub outbound: bool,
    pub now: u64,
    pub found: TablesView,
}

/// A resolver after a question.
pub open spec fn after_ask(v: ResolverView, a: Ask) -> ResolverView {
    if needs_scan(v, a.flow, a.outbound, a.now) {
        after_scan(v, a.found, a.flow, a.outbound, a.now)
    } else {
        after_lookup(v, a.flow, a.outbound, a.now)
    }
}

/// A resolver after several questions.
pub open spec fn after_asks(v: ResolverView, asks: Seq<Ask>) -> ResolverView
    decreases asks.len(),
{
    if asks.len() == 0 {
        v
    } else {
        after_ask(after_asks(v, asks.drop_last()), asks.last())
    }
}

proof fn lemma_misses_are_kept(v: ResolverView, asks: Seq<Ask>, t: Tuple, missed: u64)
    requires
        v.missed.contains_key(t),
        v.missed[t] >= missed,
        forall|i: int|
            0 <= i < asks.len() ==> missed <= (#[trigger] asks[i]).now && asks[i].now - missed
                <= SCAN_TTL,
    ensures
        after_asks(v, asks).missed.contains_key(t),
        after_asks(v, asks).missed[t] >= missed,
    decreases asks.len(),
{
    if asks.len() > 0 {
        let h = asks.drop_last();
        assert forall|i: int| 0 <= i < h.len() implies missed <= (#[trigger] h[i]).now && h[i].now
            - missed <= SCAN_TTL by {
            assert(h[i] == asks[i]);
        }
        lemma_misses_are_kept(v, h, t, missed);
        let a = asks[asks.len() - 1];
        let u = after_asks(v, h);
        assert(elapsed(u.missed[t], a.now) <= SCAN_TTL);
    }
}

/// A flow that was missed calls for no further scan while the last scan is fresh,
/// whatever was asked and scanned since: an unattributable flow costs one walk,
/// not one per packet, and any number of them in turn cost one walk each.
pub proof fn lemma_one_scan_per_miss(
    v: ResolverView,
    first: Ask,
    asks: Seq<Ask>,
    outbound: bool,
    later: u64,
)
    requires
        owner_of(after_ask(v, first).tables, first.flow, first.outbound) is None,
        forall|i: int|
            0 <= i < asks.len() ==> first.now <= (#[trigger] asks[i]).now && asks[i].now - first.now
                <= SCAN_TTL,
        !is_stale(after_asks(after_ask(v, first), asks).last_scan, later),
    ensures
        !needs_scan(after_asks(after_ask(v, first), asks), first.flow, outbound, later),
{
    lemma_misses_are_kept(after_ask(v, first), asks, first.flow, first.now);
}

/// Two flows that nobody owns, asked about in turn, cost one walk each: the next
/// question about the first is answered without another.
pub proof fn lemma_two_misses_in_turn(v: ResolverView, a: Ask, b: Ask, later: u64)
    requires
        owner_of(a.found, a.flow, a.outbound) is None,
        owner_of(b.found, a.flow, a.outbound) is None,
        owner_of(v.tables, a.flow, a.outbound) is None,
        a.now <= b.now <= later,
        b.now - a.now <= SCAN_TTL,
        !is_stale(after_ask(after_ask(v, a), b).last_scan, later),
    ensures
        !needs_scan(after_ask(after_ask(v, a), b), a.flow, a.outbound, later),
        owner_of(after_ask(after_ask(v, a), b).tables, a.flow, a.outbound) is None,
{
    let asks = seq![b];
    assert(asks.drop_last() =~= Seq::<Ask>::empty());
    assert(after_asks(after_ask(v, a), asks.drop_last()) == after_ask(v, a));
    assert(asks.last() == b);
    lemma_one_scan_per_miss(v, a, asks, a.outbound, later);
}

/// Only misses of late are kept: a scan forgets the others, so that the memory of
/// them stays small.
pub proof fn lemma_old_misses_are_forgotten(v: ResolverView, a: Ask, t: Tuple)
    requires
        needs_scan(v, a.flow, a.outbound, a.now),
        t != a.flow,
        v.missed.contains_key(t),
        elapsed(v.missed[t], a.now) > SCAN_TTL,
    ensures
        !after_ask(v, a).missed.contains_key(t),
{
}

/// A flow that the tables know never calls for a scan.
pub proof fn lemma_known_flows_are_free(v: ResolverView, t: Tuple, outbound: bool, now: u64)
    requires
        owner_of(v.tables, t, outbound) is Some,
    ensures
        !needs_scan(v, t, outbound, now),
{
}

/// Once the tables are stale, an unknown flow is always looked for again.
pub proof fn lemma_stale_tables_are_renewed(v: ResolverView, t: Tuple, outbound: bool, now: u64)
    requires
        is_stale(v.last_scan, now),
        owner_of(v.tables, t, outbound) is None,
    ensures
        needs_scan(v, t, outbound, now),
{
}

// ---------------------------------------------------------------------------
// What holds of every attribution.
// ---------------------------------------------------------------------------

/// A full match counts in both directions and beats every weaker one.
pub proof fn lemma_exact_wins(v: TablesView, t: Tuple, outbound: bool)
    requires
        v.exact.contains_key(t),
    ensures
        owner_of(v, t, outbound) == Some(
            Attribution { owner: v.exact[t], confidence: Confidence::Exact },
        ),
{
}

/// An inbound packet is never attributed by a weak key.
pub proof fn lemma_inbound_is_exact(v: TablesView, t: Tuple)
    ensures
        owner_of(v, t, false) matches Some(a) ==> a.confidence == Confidence::Exact,
{
}

/// A flow whose weak keys are contested is not attributed by them.
pub proof fn lemma_contested_is_refused(v: TablesView, t: Tuple, outbound: bool)
    requires
        !v.exact.contains_key(t),
        v.contested_local.contains((t.proto, t.src, t.sport)) || !v.local.contains_key(
            (t.proto, t.src, t.sport),
        ),
        v.contested_port.contains((t.proto, t.sport)),
    ensures
        owner_of(v, t, outbound) is None,
{
}

/// Two processes on one key contest it, whoever came first.
pub proof fn lemma_two_processes_contest(
    v: TablesView,
    k: (u8, u16),
    l: (u8, IpAddr, u16),
    a: Owner,
    b: Owner,
)
    requires
        a.pid != b.pid,
    ensures
        with_port(with_port(v, k, a), k, b).contested_port.contains(k),
        with_local(with_local(v, l, a), l, b).contested_local.contains(l),
{
}

/// One process may claim a key as often as it likes: a second claim changes
/// nothing.
pub proof fn lemma_one_process_contests_nothing(
    v: TablesView,
    k: (u8, u16),
    l: (u8, IpAddr, u16),
    a: Owner,
)
    ensures
        with_port(with_port(v, k, a), k, a) == with_port(v, k, a),
        with_local(with_local(v, l, a), l, a) == with_local(v, l, a),
        !v.port.contains_key(k) ==> with_port(v, k, a).contested_port == v.contested_port,
        !v.local.contains_key(l) ==> with_local(v, l, a).contested_local == v.contested_local,
{
    assert(with_port(with_port(v, k, a), k, a) =~= with_port(v, k, a));
    assert(with_local(with_local(v, l, a), l, a) =~= with_local(v, l, a));
}

/// A socket of one protocol says nothing about a flow of another.
pub proof fn lemma_protocols_are_apart(
    v: TablesView,
    proto: u8,
    local: IpAddr,
    port: u16,
    o: Owner,
    t: Tuple,
    outbound: bool,
)
    requires
        t.proto != proto,
    ensures
        owner_of(with_unconnected(v, proto, local, port, o), t, outbound) == owner_of(
            v,
            t,
            outbound,
        ),
{
}

/// Is this socket unconnected, and does it hold this port?
pub open spec fn holds_port(s: SocketRow, proto: u8, port: u16) -> bool {
    s.proto == proto && s.peer is None && (s.local matches Some((_, p)) && p == port)
}

/// Could this socket have sent the flow: connected to its peer, or unconnected on
/// its local address and port, or on its port?
pub open spec fn could_send(s: SocketRow, t: Tuple) -> bool {
    ||| s.proto == t.proto && s.local == Some((t.src, t.sport)) && s.peer == Some((t.dst, t.dport))
    ||| holds_port(s, t.proto, t.sport)
}

proof fn lemma_scan_is_sound(rows: Seq<SocketRow>)
    ensures
        ({
            let v = scanned(rows);
            &&& forall|t: Tuple| #[trigger]
                v.exact.contains_key(t) ==> exists|i: int|
                    0 <= i < rows.len() && (#[trigger] rows[i]).owner == v.exact[t] && could_send(
                        rows[i],
                        t,
                    )
            &&& forall|k: (u8, IpAddr, u16)| #[trigger]
                v.local.contains_key(k) ==> exists|i: int|
                    0 <= i < rows.len() && (#[trigger] rows[i]).owner == v.local[k] && holds_port(
                        rows[i],
                        k.0,
                        k.2,
                    )
            &&& forall|k: (u8, u16)| #[trigger]
                v.port.contains_key(k) ==> exists|i: int|
                    0 <= i < rows.len() && (#[trigger] rows[i]).owner == v.port[k] && holds_port(
                        rows[i],
                        k.0,
                        k.1,
                    )
        }),
    decreases rows.len(),
{
    if rows.len() > 0 {
        let h = rows.drop_last();
        let last = rows.last();
        let v = scanned(rows);
        let u = scanned(h);
        lemma_scan_is_sound(h);
        assert(rows[rows.len() - 1] == last);
        assert forall|t: Tuple| #[trigger] v.exact.contains_key(t) implies exists|i: int|
            0 <= i < rows.len() && (#[trigger] rows[i]).owner == v.exact[t] && could_send(
                rows[i],
                t,
            ) by {
            if u.exact.contains_key(t) && u.exact[t] == v.exact[t] {
                let i = choose|i: int|
                    0 <= i < h.len() && (#[trigger] h[i]).owner == u.exact[t] && could_send(
                        h[i],
                        t,
                    );
                assert(rows[i] == h[i]);
            } else {
                assert(rows[rows.len() - 1].owner == v.exact[t]);
            }
        }
        assert forall|k: (u8, IpAddr, u16)| #[trigger] v.local.contains_key(k) implies exists|
            i: int,
        |
            0 <= i < rows.len() && (#[trigger] rows[i]).owner == v.local[k] && holds_port(
                rows[i],
                k.0,
                k.2,
            ) by {
            if u.local.contains_key(k) {
                let i = choose|i: int|
                    0 <= i < h.len() && (#[trigger] h[i]).owner == u.local[k] && holds_port(
                        h[i],
                        k.0,
                        k.2,
                    );
                assert(rows[i] == h[i]);
            } else {
                assert(rows[rows.len() - 1].owner == v.local[k]);
            }
        }
        assert forall|k: (u8, u16)| #[trigger] v.port.contains_key(k) implies exists|i: int|
            0 <= i < rows.len() && (#[trigger] rows[i]).owner == v.port[k] && holds_port(
                rows[i],
                k.0,
                k.1,
            ) by {
            if u.port.contains_key(k) {
                let i = choose|i: int|
                    0 <= i < h.len() && (#[trigger] h[i]).owner == u.port[k] && holds_port(
                        h[i],
                        k.0,
                        k.1,
                    );
                assert(rows[i] == h[i]);
            } else {
                assert(rows[rows.len() - 1].owner == v.port[k]);
            }
        }
    }
}

/// Whoever is named owns a socket that could have sent the flow.
pub proof fn lemma_named_owner_has_a_socket(rows: Seq<SocketRow>, t: Tuple, outbound: bool)
    ensures
        owner_of(scanned(rows), t, outbound) matches Some(a) ==> exists|i: int|
            0 <= i < rows.len() && (#[trigger] rows[i]).owner == a.owner && could_send(rows[i], t),
{
    lemma_scan_is_sound(rows);
    let v = scanned(rows);
    let lk = (t.proto, t.src, t.sport);
    let pk = (t.proto, t.sport);
    if let Some(a) = owner_of(v, t, outbound) {
        if v.exact.contains_key(t) {
        } else if a.confidence == Confidence::Local {
            assert(v.local.contains_key(lk));
            let i = choose|i: int|
                0 <= i < rows.len() && (#[trigger] rows[i]).owner == v.local[lk] && holds_port(
                    rows[i],
                    lk.0,
                    lk.2,
                );
            assert(could_send(rows[i], t));
        } else {
            assert(v.port.contains_key(pk));
            let i = choose|i: int|
                0 <= i < rows.len() && (#[trigger] rows[i]).owner == v.port[pk] && holds_port(
                    rows[i],
                    pk.0,
                    pk.1,
                );
            assert(could_send(rows[i], t));
        }
    }
}

proof fn lemma_ports_are_claimed(rows: Seq<SocketRow>, i: int, proto: u8, port: u16)
    requires
        0 <= i < rows.len(),
        holds_port(rows[i], proto, port),
    ensures
        ({
            let v = scanned(rows);
            &&& v.port.contains_key((proto, port))
            &&& v.contested_port.contains((proto, port)) || v.port[(proto, port)].pid
                == rows[i].owner.pid
        }),
    decreases rows.len(),
{
    let h = rows.drop_last();
    if i < h.len() {
        assert(h[i] == rows[i]);
        lemma_ports_are_claimed(h, i, proto, port);
    }
}

/// Where a process is named by its port alone, every unconnected socket on that
/// port is its own: with a second process on the port no name is given.
pub proof fn lemma_port_names_are_unambiguous(
    rows: Seq<SocketRow>,
    t: Tuple,
    outbound: bool,
    i: int,
)
    requires
        0 <= i < rows.len(),
        holds_port(rows[i], t.proto, t.sport),
        owner_of(scanned(rows), t, outbound) matches Some(a) && a.confidence == Confidence::Port,
    ensures
        owner_of(scanned(rows), t, outbound) matches Some(a) && a.owner.pid == rows[i].owner.pid,
{
    lemma_ports_are_claimed(rows, i, t.proto, t.sport);
}

} // verus!
