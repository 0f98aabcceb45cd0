//! What a rule covers, and sets of rules.
use crate::addr::{ip_of, parse_ip, IpAddr};
use crate::line::{scoped_of, split_scoped};
use crate::platform::lowercase;
use crate::table::{Keyed, Pool, Table};
use crate::target::{split_target_chars, target_of};
use crate::text::{chars_of, ends_with, ends_with_chars, same, same_chars, string_of};
use crate::words::{lower_chars, Scope};
use vstd::prelude::*;

verus! {

// ---------------------------------------------------------------------------
// Patterns.
// ---------------------------------------------------------------------------

/// What one rule covers. A port of `None` means any port, and names are in lower
/// case.
#[derive(Debug)]
pub enum Pattern {
    App(String),
    Host(String, Option<u16>),
    Dest(IpAddr, Option<u16>),
    HostFrom(String, String, Option<u16>),
    DestFrom(String, IpAddr, Option<u16>),
}

/// A pattern as a value; scoped patterns name their binary first.
pub ghost enum PatternView {
    App(Seq<char>),
    Host(Seq<char>, Option<u16>),
    Dest(IpAddr, Option<u16>),
    HostFrom(Seq<char>, Seq<char>, Option<u16>),
    DestFrom(Seq<char>, IpAddr, Option<u16>),
}

impl View for Pattern {
    type V = PatternView;

    open spec fn view(&self) -> PatternView {
        match *self {
            Pattern::App(e) => PatternView::App(e@),
            Pattern::Host(h, p) => PatternView::Host(h@, p),
            Pattern::Dest(a, p) => PatternView::Dest(a, p),
            Pattern::HostFrom(e, h, p) => PatternView::HostFrom(e@, h@, p),
            Pattern::DestFrom(e, a, p) => PatternView::DestFrom(e@, a, p),
        }
    }
}

/// A connection as the policy sees it: the binary, if it is known, the address,
/// the name it was looked up under in lower case, if one was seen, and the port.
pub ghost struct Conn {
    pub exe: Option<Seq<char>>,
    pub dst: IpAddr,
    pub host: Option<Seq<char>>,
    pub dport: u16,
}

/// Does a rule's port admit this destination port?
pub open spec fn port_admits(rule: Option<u16>, dport: u16) -> bool {
    match rule {
        None => true,
        Some(p) => p == dport,
    }
}

/// Does a name pattern cover a name? `*.example.com` covers every subdomain, and
/// the bare domain too.
pub open spec fn name_covers(rule: Seq<char>, host: Seq<char>) -> bool {
    ||| rule == host
    ||| rule.len() >= 2 && rule[0] == '*' && rule[1] == '.' && (host == rule.skip(2) || ends_with(
        host,
        rule.skip(1),
    ))
}

/// Does a name pattern cover the name of a connection, if it has one?
pub open spec fn host_covered(rule: Seq<char>, host: Option<Seq<char>>) -> bool {
    match host {
        Some(h) => name_covers(rule, h),
        None => false,
    }
}

/// Does a pattern cover a connection?
pub open spec fn covers(p: PatternView, c: Conn) -> bool {
    match p {
        PatternView::App(e) => c.exe == Some(e),
        PatternView::Host(h, port) => port_admits(port, c.dport) && host_covered(h, c.host),
        PatternView::Dest(a, port) => port_admits(port, c.dport) && a == c.dst,
        PatternView::HostFrom(e, h, port) => c.exe == Some(e) && port_admits(port, c.dport)
            && host_covered(h, c.host),
        PatternView::DestFrom(e, a, port) => c.exe == Some(e) && port_admits(port, c.dport) && a
            == c.dst,
    }
}

/// Does some pattern of a set cover a connection?
pub open spec fn any_covers(s: Set<PatternView>, c: Conn) -> bool {
    exists|p: PatternView| s.contains(p) && #[trigger] covers(p, c)
}

/// Why a value does not make a pattern.
pub ghost enum Flaw {
    /// A scoped value without both of its parts.
    Incomplete,
    /// Text that should have been an address.
    BadAddress(Seq<char>),
}

/// The pattern a value describes, for a rule about `scope`.
pub open spec fn pattern_of(scope: Scope, v: Seq<char>) -> Result<PatternView, Flaw> {
    match scope {
        Scope::App => Ok(PatternView::App(v)),
        Scope::Host => {
            let (h, port) = target_of(v);
            Ok(PatternView::Host(lowercase(h), port))
        },
        Scope::Dest => {
            let (h, port) = target_of(v);
            match ip_of(h) {
                Some(a) => Ok(PatternView::Dest(a, port)),
                None => Err(Flaw::BadAddress(h)),
            }
        },
        Scope::HostFrom => match scoped_of(v) {
            Some((d, e)) => {
                let (h, port) = target_of(d);
                Ok(PatternView::HostFrom(e, lowercase(h), port))
            },
            None => Err(Flaw::Incomplete),
        },
        Scope::DestFrom => match scoped_of(v) {
            Some((d, e)) => {
                let (h, port) = target_of(d);
                match ip_of(h) {
                    Some(a) => Ok(PatternView::DestFrom(e, a, port)),
                    None => Err(Flaw::BadAddress(d)),
                }
            },
            None => Err(Flaw::Incomplete),
        },
    }
}

/// The text a flaw is about, when it is about one.
pub enum PatternError {
    Incomplete,
    BadAddress(String),
}

impl View for PatternError {
    type V = Flaw;

    open spec fn view(&self) -> Flaw {
        match *self {
            PatternError::Incomplete => Flaw::Incomplete,
            PatternError::BadAddress(a) => Flaw::BadAddress(a@),
        }
    }
}

/// Read the value of a rule about `scope`.
pub fn parse_pattern(scope: Scope, v: &[char]) -> (r: Result<Pattern, PatternError>)
    ensures
        (match r {
            Ok(p) => pattern_of(scope, v@) == Ok::<PatternView, Flaw>(p@),
            Err(e) => pattern_of(scope, v@) == Err::<PatternView, Flaw>(e@),
        }),
{
    match scope {
        Scope::App => Ok(Pattern::App(string_of(v))),
        Scope::Host => {
            let (h, port) = split_target_chars(v);
            Ok(Pattern::Host(string_of(&lower_chars(&h)), port))
        },
        Scope::Dest => {
            let (h, port) = split_target_chars(v);
            match parse_ip(&h) {
                Some(a) => Ok(Pattern::Dest(a, port)),
                None => Err(PatternError::BadAddress(string_of(&h))),
            }
        },
        Scope::HostFrom => match split_scoped(v) {
            Some((d, e)) => {
                let (h, port) = split_target_chars(&d);
                Ok(Pattern::HostFrom(string_of(&e), string_of(&lower_chars(&h)), port))
            },
            None => Err(PatternError::Incomplete),
        },
        Scope::DestFrom => match split_scoped(v) {
            Some((d, e)) => {
                let (h, port) = split_target_chars(&d);
                match parse_ip(&h) {
                    Some(a) => Ok(Pattern::DestFrom(string_of(&e), a, port)),
                    None => Err(PatternError::BadAddress(string_of(&d))),
                }
            },
            None => Err(PatternError::Incomplete),
        },
    }
}

/// Does a rule's port constraint admit this destination port?
pub fn port_ok(rule: Option<u16>, dport: u16) -> (r: bool)
    ensures
        r == port_admits(rule, dport),
{
    match rule {
        None => true,
        Some(p) => p == dport,
    }
}

/// Does one name pattern cover this host?
pub fn pattern_matches(rule: &str, host_lower: &str) -> (r: bool)
    ensures
        r == name_covers(rule@, host_lower@),
{
    let p = chars_of(rule);
    let h = chars_of(host_lower);
    if same_chars(&p, &h) {
        return true;
    }
    let n: usize = p.len();
    if n >= 2 && p[0] == '*' && p[1] == '.' {
        let suffix = &p[2..n];
        assert(suffix@ =~= p@.skip(2));
        let dotted = &p[1..n];
        assert(dotted@ =~= p@.skip(1));
        return same_chars(&h, suffix) || ends_with_chars(&h, dotted);
    }
    false
}

// ---------------------------------------------------------------------------
// Sets of patterns.
// ---------------------------------------------------------------------------

/// A set of patterns, kept apart by what they are about.
pub struct RuleSet {
    pub app: Pool<String>,
    pub host: Pool<(String, Option<u16>)>,
    pub dest: Pool<(IpAddr, Option<u16>)>,
    pub host_from: Pool<(String, String, Option<u16>)>,
    pub dest_from: Pool<(String, IpAddr, Option<u16>)>,
}

impl View for RuleSet {
    type V = Set<PatternView>;

    open spec fn view(&self) -> Set<PatternView> {
        Set::new(
            |p: PatternView|
                match p {
                    PatternView::App(e) => self.app@.contains_key(e),
                    PatternView::Host(h, port) => self.host@.contains_key((h, port)),
                    PatternView::Dest(a, port) => self.dest@.contains_key((a, port)),
                    PatternView::HostFrom(e, h, port) => self.host_from@.contains_key((e, h, port)),
                    PatternView::DestFrom(e, a, port) => self.dest_from@.contains_key((e, a, port)),
                },
        )
    }
}

/// The binaries a set has a whole-application rule for.
pub open spec fn apps_in(s: Set<PatternView>) -> Set<Seq<char>> {
    Set::new(|e: Seq<char>| s.contains(PatternView::App(e)))
}

/// The names, with their ports, that a set has a machine-wide rule for.
pub open spec fn hosts_in(s: Set<PatternView>) -> Set<(Seq<char>, Option<u16>)> {
    Set::new(|t: (Seq<char>, Option<u16>)| s.contains(PatternView::Host(t.0, t.1)))
}

/// The addresses, with their ports, that a set has a machine-wide rule for.
pub open spec fn dests_in(s: Set<PatternView>) -> Set<(IpAddr, Option<u16>)> {
    Set::new(|t: (IpAddr, Option<u16>)| s.contains(PatternView::Dest(t.0, t.1)))
}

impl RuleSet {
    /// No pattern is stored twice.
    pub open spec fn wf(&self) -> bool {
        &&& self.app.wf()
        &&& self.host.wf()
        &&& self.dest.wf()
        &&& self.host_from.wf()
        &&& self.dest_from.wf()
    }

    /// The set without any pattern.
    pub fn new() -> (r: RuleSet)
        ensures
            r.wf(),
            r@ == Set::<PatternView>::empty(),
    {
        let r = RuleSet {
            app: Table::new(),
            host: Table::new(),
            dest: Table::new(),
            host_from: Table::new(),
            dest_from: Table::new(),
        };
        assert(r@ =~= Set::<PatternView>::empty());
        r
    }

    /// Add a pattern.
    pub fn insert(&mut self, p: Pattern)
        requires
            old(self).wf(),
        ensures
            final(self).wf(),
            final(self)@ == old(self)@.insert(p@),
    {
        match p {
            Pattern::App(e) => self.app.insert(e, ()),
            Pattern::Host(h, port) => self.host.insert((h, port), ()),
            Pattern::Dest(a, port) => self.dest.insert((a, port), ()),
            Pattern::HostFrom(e, h, port) => self.host_from.insert((e, h, port), ()),
            Pattern::DestFrom(e, a, port) => self.dest_from.insert((e, a, port), ()),
        }
        assert(self@ =~= old(self)@.insert(p@));
    }

    /// How many whole-application rules there are.
    pub fn app_len(&self) -> (r: usize)
        requires
            self.wf(),
        ensures
            r == apps_in(self@).len(),
    {
        assert(apps_in(self@) =~= self.app@.dom());
        self.app.len()
    }

    /// How many machine-wide name rules there are.
    pub fn host_len(&self) -> (r: usize)
        requires
            self.wf(),
        ensures
            r == hosts_in(self@).len(),
    {
        assert(hosts_in(self@) =~= self.host@.dom());
        self.host.len()
    }

    /// How many machine-wide address rules there are.
    pub fn dest_len(&self) -> (r: usize)
        requires
            self.wf(),
        ensures
            r == dests_in(self@).len(),
    {
        assert(dests_in(self@) =~= self.dest@.dom());
        self.dest.len()
    }

    /// Is there a whole-application rule for this binary?
    fn app_hit(&self, exe: &str) -> (r: bool)
        requires
            self.wf(),
        ensures
            r == self@.contains(PatternView::App(exe@)),
    {
        let k = exe.to_owned();
        self.app.contains(&k)
    }

    /// Does any (binary, name, port) rule cover this binary, host and port?
    fn scoped_host_hit(&self, exe: &str, host_lower: &str, dport: u16) -> (r: bool)
        requires
            self.wf(),
        ensures
            r == exists|h: Seq<char>, port: Option<u16>|
                self@.contains(PatternView::HostFrom(exe@, h, port)) && port_admits(port, dport)
                    && #[trigger] name_covers(h, host_lower@) && #[trigger] admits(port),
    {
        let n: usize = self.host_from.slots.len();
        for i in 0..n
            invariant
                self.wf(),
                n == self.host_from.slots@.len(),
                forall|j: int|
                    0 <= j < i ==> {
                        let k = (#[trigger] self.host_from.slots@[j]).0.key();
                        !(k.0 == exe@ && port_admits(k.2, dport) && name_covers(k.1, host_lower@))
                    },
        {
            let k = &self.host_from.slots[i].0;
            if same(k.0.as_str(), exe) && port_ok(k.2, dport) && pattern_matches(
                k.1.as_str(),
                host_lower,
            ) {
                proof {
                    self.host_from.lemma_slot(i as int);
                    assert(admits(k.2));
                    assert(self@.contains(PatternView::HostFrom(exe@, k.1@, k.2)));
                }
                return true;
            }
        }
        proof {
            assert forall|h: Seq<char>, port: Option<u16>|
                self@.contains(PatternView::HostFrom(exe@, h, port)) && port_admits(
                    port,
                    dport,
                ) && #[trigger] name_covers(h, host_lower@) && #[trigger] admits(
                    port,
                ) implies false by {
                let j = self.host_from.lemma_key((exe@, h, port));
                assert(self.host_from.slots@[j].0.key() == (exe@, h, port));
            }
        }
        false
    }

    /// Does any (binary, address, port) rule cover this binary, address and port?
    fn scoped_dest_hit(&self, exe: &str, dst: IpAddr, dport: u16) -> (r: bool)
        requires
            self.wf(),
        ensures
            r == exists|port: Option<u16>|
                self@.contains(PatternView::DestFrom(exe@, dst, port)) && port_admits(port, dport)
                    && #[trigger] admits(port),
    {
        let any = self.dest_from.contains(&(exe.to_owned(), dst, None));
        let one = self.dest_from.contains(&(exe.to_owned(), dst, Some(dport)));
        proof {
            assert(admits(None));
            assert(admits(Some(dport)));
            assert forall|port: Option<u16>|
                self@.contains(PatternView::DestFrom(exe@, dst, port)) && port_admits(
                    port,
                    dport,
                ) && #[trigger] admits(port) implies any || one by {
                assert(port == None::<u16> || port == Some(dport));
            }
            if any {
                assert(self@.contains(PatternView::DestFrom(exe@, dst, None)));
            }
            if one {
                assert(self@.contains(PatternView::DestFrom(exe@, dst, Some(dport))));
            }
        }
        any || one
    }

    /// Does any (name, port) rule cover this host and port?
    fn host_matches(&self, host_lower: &str, dport: u16) -> (r: bool)
        requires
            self.wf(),
        ensures
            r == exists|h: Seq<char>, port: Option<u16>|
                self@.contains(PatternView::Host(h, port)) && port_admits(port, dport)
                    && #[trigger] name_covers(h, host_lower@) && #[trigger] admits(port),
    {
        let n: usize = self.host.slots.len();
        for i in 0..n
            invariant
                self.wf(),
                n == self.host.slots@.len(),
                forall|j: int|
                    0 <= j < i ==> {
                        let k = (#[trigger] self.host.slots@[j]).0.key();
                        !(port_admits(k.1, dport) && name_covers(k.0, host_lower@))
                    },
        {
            let k = &self.host.slots[i].0;
            if port_ok(k.1, dport) && pattern_matches(k.0.as_str(), host_lower) {
                proof {
                    self.host.lemma_slot(i as int);
                    assert(admits(k.1));
                    assert(self@.contains(PatternView::Host(k.0@, k.1)));
                }
                return true;
            }
        }
        proof {
            assert forall|h: Seq<char>, port: Option<u16>|
                self@.contains(PatternView::Host(h, port)) && port_admits(port, dport)
                    && #[trigger] name_covers(h, host_lower@) && #[trigger] admits(
                    port,
                ) implies false by {
                let j = self.host.lemma_key((h, port));
                assert(self.host.slots@[j].0.key() == (h, port));
            }
        }
        false
    }

    /// Does any (address, port) rule cover this address and port?
    fn dest_matches(&self, dst: IpAddr, dport: u16) -> (r: bool)
        requires
            self.wf(),
        ensures
            r == exists|port: Option<u16>|
                self@.contains(PatternView::Dest(dst, port)) && port_admits(port, dport)
                    && #[trigger] admits(port),
    {
        let any = self.dest.contains(&(dst, None));
        let one = self.dest.contains(&(dst, Some(dport)));
        proof {
            assert(admits(None));
            assert(admits(Some(dport)));
            assert forall|port: Option<u16>|
                self@.contains(PatternView::Dest(dst, port)) && port_admits(port, dport)
                    && #[trigger] admits(port) implies any || one by {
                assert(port == None::<u16> || port == Some(dport));
            }
            if any {
                assert(self@.contains(PatternView::Dest(dst, None)));
            }
            if one {
                assert(self@.contains(PatternView::Dest(dst, Some(dport))));
            }
        }
        any || one
    }

    /// Does some pattern of the set cover a connection? The host is in lower
    /// case.
    pub fn covers(&self, exe: Option<&str>, dst: IpAddr, host_lower: Option<&str>, dport: u16) -> (r:
        bool)
        requires
            self.wf(),
        ensures
            r == any_covers(self@, conn(exe, dst, host_lower, dport)),
    {
        let ghost c = conn(exe, dst, host_lower, dport);
        if let Some(e) = exe {
            if self.scoped_dest_hit(e, dst, dport) {
                proof {
                    let port = choose|port: Option<u16>|
                        self@.contains(PatternView::DestFrom(e@, dst, port)) && port_admits(
                            port,
                            dport,
                        ) && #[trigger] admits(port);
                    assert(covers(PatternView::DestFrom(e@, dst, port), c));
                }
                return true;
            }
            if let Some(h) = host_lower {
                if self.scoped_host_hit(e, h, dport) {
                    proof {
                        let (pat, port) = choose|pat: Seq<char>, port: Option<u16>|
                            self@.contains(PatternView::HostFrom(e@, pat, port)) && port_admits(
                                port,
                                dport,
                            ) && #[trigger] name_covers(pat, h@) && #[trigger] admits(port);
                        assert(covers(PatternView::HostFrom(e@, pat, port), c));
                    }
                    return true;
                }
            }
            if self.app_hit(e) {
                proof {
                    assert(covers(PatternView::App(e@), c));
                }
                return true;
            }
        }
        if let Some(h) = host_lower {
            if self.host_matches(h, dport) {
                proof {
                    let (pat, port) = choose|pat: Seq<char>, port: Option<u16>|
                        self@.contains(PatternView::Host(pat, port)) && port_admits(port, dport)
                            && #[trigger] name_covers(pat, h@) && #[trigger] admits(port);
                    assert(covers(PatternView::Host(pat, port), c));
                }
                return true;
            }
        }
        if self.dest_matches(dst, dport) {
            proof {
                let port = choose|port: Option<u16>|
                    self@.contains(PatternView::Dest(dst, port)) && port_admits(port, dport)
                        && #[trigger] admits(port);
                assert(covers(PatternView::Dest(dst, port), c));
            }
            return true;
        }
        proof {
            assert forall|p: PatternView| self@.contains(p) implies !#[trigger] covers(p, c) by {
                match p {
                    PatternView::App(e) => {},
                    PatternView::Host(h, port) => {
                        assert(admits(port));
                    },
                    PatternView::Dest(a, port) => {
                        assert(admits(port));
                    },
                    PatternView::HostFrom(e, h, port) => {
                        assert(admits(port));
                    },
                    PatternView::DestFrom(e, a, port) => {
                        assert(admits(port));
                    },
                }
            }
        }
        false
    }
}

/// True of every port; a handle for choosing one.
pub open spec fn admits(port: Option<u16>) -> bool {
    true
}

/// An optional text as a value.
pub open spec fn opt_text(s: Option<&str>) -> Option<Seq<char>> {
    match s {
        Some(t) => Some(t@),
        None => None,
    }
}

/// A connection as a value.
pub open spec fn conn(exe: Option<&str>, dst: IpAddr, host_lower: Option<&str>, dport: u16) -> Conn {
    Conn { exe: opt_text(exe), dst, host: opt_text(host_lower), dport }
}

} // verus!
