//! The closed vocabularies: verdicts, answers, modes, rule types.
use crate::platform::{lowercase, to_lower};
use crate::text::{chars_of, is_white, lemma_trim_fixed, string_of, trim, trim_chars, word_is};
use vstd::prelude::*;
use vstd::utf8::is_ascii_chars;

verus! {

/// What the policy says about a connection.
#[derive(Debug, Clone, Copy, PartialEq, Eq, Structural)]
pub enum Verdict {
    Allow,
    Deny,
    Ask,
}

/// What the user chose when asked about a connection.
#[derive(Debug, Clone, Copy, PartialEq, Eq, Structural)]
pub enum Answer {
    /// Approve the destination: by name when one was seen, else by address.
    AllowConn,
    AllowApp,
    /// Deny this destination to this binary only.
    Block,
    /// Deny the binary everything.
    BlockApp,
    /// No answer in time: deny this packet, remember nothing.
    Timeout,
}

/// What the daemon does once it has decided. It only observes, or it drops what is
/// not approved.
#[derive(Debug, Clone, Copy, PartialEq, Eq, Structural)]
pub enum Mode {
    Visibility,
    Enforcement,
}

/// Which backend says who owns a connection: the kernel module, or a scan of the
/// process table.
#[derive(Debug, Clone, Copy, PartialEq, Eq, Structural)]
pub enum AttributionMode {
    Kernel,
    Procstat,
}

/// Where a recorded rule came from: a person chose, or traffic was observed.
#[derive(Debug, Clone, Copy, PartialEq, Eq, Structural)]
pub enum Origin {
    Approved,
    Learned,
}

/// Whether a rule permits or forbids.
#[derive(Debug, Clone, Copy, PartialEq, Eq, Structural)]
pub enum Effect {
    Allow,
    Deny,
}

/// What a rule is about: a binary, a name, an address, or a name or an address
/// for one binary.
#[derive(Debug, Clone, Copy, PartialEq, Eq, Structural)]
pub enum Scope {
    App,
    Host,
    Dest,
    HostFrom,
    DestFrom,
}

// ---------------------------------------------------------------------------
// Verdicts and answers.
// ---------------------------------------------------------------------------

/// The verdict a `default` line names.
pub open spec fn verdict_of(w: Seq<char>) -> Option<Verdict> {
    if w == "allow"@ {
        Some(Verdict::Allow)
    } else if w == "deny"@ {
        Some(Verdict::Deny)
    } else if w == "ask"@ {
        Some(Verdict::Ask)
    } else {
        None
    }
}

/// Read a verdict.
pub fn parse_verdict(w: &[char]) -> (r: Option<Verdict>)
    ensures
        r == verdict_of(w@),
{
    if word_is(w, "allow") {
        Some(Verdict::Allow)
    } else if word_is(w, "deny") {
        Some(Verdict::Deny)
    } else if word_is(w, "ask") {
        Some(Verdict::Ask)
    } else {
        None
    }
}

impl Verdict {
    /// The name of a verdict as the summary prints it.
    pub open spec fn name(self) -> Seq<char> {
        match self {
            Verdict::Allow => "Allow"@,
            Verdict::Deny => "Deny"@,
            Verdict::Ask => "Ask"@,
        }
    }

    /// The name of a verdict.
    pub fn as_str(self) -> (r: &'static str)
        ensures
            r@ == self.name(),
    {
        match self {
            Verdict::Allow => "Allow",
            Verdict::Deny => "Deny",
            Verdict::Ask => "Ask",
        }
    }
}

/// The answer a prompt wrote.
pub open spec fn answer_of(s: Seq<char>) -> Option<Answer> {
    let w = trim(s);
    if w == "allow-conn"@ {
        Some(Answer::AllowConn)
    } else if w == "allow-app"@ {
        Some(Answer::AllowApp)
    } else if w == "block-conn"@ || w == "block"@ {
        Some(Answer::Block)
    } else if w == "block-app"@ {
        Some(Answer::BlockApp)
    } else if w == "timeout"@ {
        Some(Answer::Timeout)
    } else {
        None
    }
}

impl Answer {
    /// Read the answer a prompt wrote; white space around it does not matter.
    pub fn parse(s: &str) -> (r: Option<Answer>)
        ensures
            r == answer_of(s@),
    {
        let c = chars_of(s);
        let w = trim_chars(&c);
        if word_is(w, "allow-conn") {
            Some(Answer::AllowConn)
        } else if word_is(w, "allow-app") {
            Some(Answer::AllowApp)
        } else if word_is(w, "block-conn") || word_is(w, "block") {
            Some(Answer::Block)
        } else if word_is(w, "block-app") {
            Some(Answer::BlockApp)
        } else if word_is(w, "timeout") {
            Some(Answer::Timeout)
        } else {
            None
        }
    }
}

// ---------------------------------------------------------------------------
// Modes.
// ---------------------------------------------------------------------------

/// The mode a word names, whatever its case. Former names stay accepted.
pub open spec fn mode_of(s: Seq<char>) -> Option<Mode> {
    let w = lowercase(trim(s));
    if w == "visibility"@ || w == "listen"@ || w == "observe"@ {
        Some(Mode::Visibility)
    } else if w == "enforcement"@ || w == "enforce"@ {
        Some(Mode::Enforcement)
    } else {
        None
    }
}

/// A trimmed word in lower case.
pub fn lower_word(s: &str) -> (r: Vec<char>)
    ensures
        r@ == lowercase(trim(s@)),
{
    let c = chars_of(s);
    lower_chars(trim_chars(&c))
}

/// Characters in lower case.
pub fn lower_chars(c: &[char]) -> (r: Vec<char>)
    ensures
        r@ == lowercase(c@),
{
    let s = string_of(c);
    let t = to_lower(s.as_str());
    chars_of(t.as_str())
}

impl Mode {
    /// Read a mode.
    pub fn parse(s: &str) -> (r: Option<Mode>)
        ensures
            r == mode_of(s@),
    {
        let w = lower_word(s);
        if word_is(&w, "visibility") || word_is(&w, "listen") || word_is(&w, "observe") {
            Some(Mode::Visibility)
        } else if word_is(&w, "enforcement") || word_is(&w, "enforce") {
            Some(Mode::Enforcement)
        } else {
            None
        }
    }

    /// How a mode is spelled.
    pub open spec fn name(self) -> Seq<char> {
        match self {
            Mode::Visibility => "visibility"@,
            Mode::Enforcement => "enforcement"@,
        }
    }

    /// How a mode is spelled.
    pub fn as_str(self) -> (r: &'static str)
        ensures
            r@ == self.name(),
    {
        match self {
            Mode::Visibility => "visibility",
            Mode::Enforcement => "enforcement",
        }
    }

    /// Does this mode drop what is not approved?
    pub fn enforcing(self) -> (r: bool)
        ensures
            r == (self == Mode::Enforcement),
    {
        match self {
            Mode::Visibility => false,
            Mode::Enforcement => true,
        }
    }
}

/// The backend a word names, whatever its case.
pub open spec fn attribution_of(s: Seq<char>) -> Option<AttributionMode> {
    let w = lowercase(trim(s));
    if w == "kernel"@ {
        Some(AttributionMode::Kernel)
    } else if w == "procstat"@ {
        Some(AttributionMode::Procstat)
    } else {
        None
    }
}

impl AttributionMode {
    /// Read the name of a backend.
    pub fn parse(s: &str) -> (r: Option<AttributionMode>)
        ensures
            r == attribution_of(s@),
    {
        let w = lower_word(s);
        if word_is(&w, "kernel") {
            Some(AttributionMode::Kernel)
        } else if word_is(&w, "procstat") {
            Some(AttributionMode::Procstat)
        } else {
            None
        }
    }

    /// How a backend is spelled.
    pub open spec fn name(self) -> Seq<char> {
        match self {
            AttributionMode::Kernel => "kernel"@,
            AttributionMode::Procstat => "procstat"@,
        }
    }

    /// How a backend is spelled.
    pub fn as_str(self) -> (r: &'static str)
        ensures
            r@ == self.name(),
    {
        match self {
            AttributionMode::Kernel => "kernel",
            AttributionMode::Procstat => "procstat",
        }
    }
}

impl Origin {
    /// How an origin is noted beside a rule.
    pub open spec fn note(self) -> Seq<char> {
        match self {
            Origin::Approved => "approved"@,
            Origin::Learned => "learned"@,
        }
    }

    /// How an origin is noted beside a rule.
    pub fn adjective(self) -> (r: &'static str)
        ensures
            r@ == self.note(),
    {
        match self {
            Origin::Approved => "approved",
            Origin::Learned => "learned",
        }
    }

    /// How an origin introduces the binary a rule came from.
    pub open spec fn introduction(self) -> Seq<char> {
        match self {
            Origin::Approved => "approved for"@,
            Origin::Learned => "learned from"@,
        }
    }

    /// How an origin introduces the binary a rule came from.
    pub fn verb(self) -> (r: &'static str)
        ensures
            r@ == self.introduction(),
    {
        match self {
            Origin::Approved => "approved for",
            Origin::Learned => "learned from",
        }
    }
}

// ---------------------------------------------------------------------------
// Rule types.
// ---------------------------------------------------------------------------

/// Every rule type, as it is spelled in a policy file.
pub const KINDS: [&'static str; 10] = [
    "allow-app",
    "deny-app",
    "allow-host",
    "deny-host",
    "allow-dest",
    "deny-dest",
    "allow-host-from",
    "allow-dest-from",
    "deny-host-from",
    "deny-dest-from",
];

/// How a rule type is spelled.
pub open spec fn kind_text(effect: Effect, scope: Scope) -> Seq<char> {
    match (effect, scope) {
        (Effect::Allow, Scope::App) => "allow-app"@,
        (Effect::Deny, Scope::App) => "deny-app"@,
        (Effect::Allow, Scope::Host) => "allow-host"@,
        (Effect::Deny, Scope::Host) => "deny-host"@,
        (Effect::Allow, Scope::Dest) => "allow-dest"@,
        (Effect::Deny, Scope::Dest) => "deny-dest"@,
        (Effect::Allow, Scope::HostFrom) => "allow-host-from"@,
        (Effect::Allow, Scope::DestFrom) => "allow-dest-from"@,
        (Effect::Deny, Scope::HostFrom) => "deny-host-from"@,
        (Effect::Deny, Scope::DestFrom) => "deny-dest-from"@,
    }
}

/// The rule type a word names.
pub open spec fn kind_of(w: Seq<char>) -> Option<(Effect, Scope)> {
    if w == "allow-app"@ {
        Some((Effect::Allow, Scope::App))
    } else if w == "deny-app"@ {
        Some((Effect::Deny, Scope::App))
    } else if w == "allow-host"@ {
        Some((Effect::Allow, Scope::Host))
    } else if w == "deny-host"@ {
        Some((Effect::Deny, Scope::Host))
    } else if w == "allow-dest"@ {
        Some((Effect::Allow, Scope::Dest))
    } else if w == "deny-dest"@ {
        Some((Effect::Deny, Scope::Dest))
    } else if w == "allow-host-from"@ {
        Some((Effect::Allow, Scope::HostFrom))
    } else if w == "allow-dest-from"@ {
        Some((Effect::Allow, Scope::DestFrom))
    } else if w == "deny-host-from"@ {
        Some((Effect::Deny, Scope::HostFrom))
    } else if w == "deny-dest-from"@ {
        Some((Effect::Deny, Scope::DestFrom))
    } else {
        None
    }
}

/// Read a rule type.
pub fn parse_kind(w: &[char]) -> (r: Option<(Effect, Scope)>)
    ensures
        r == kind_of(w@),
{
    if word_is(w, "allow-app") {
        Some((Effect::Allow, Scope::App))
    } else if word_is(w, "deny-app") {
        Some((Effect::Deny, Scope::App))
    } else if word_is(w, "allow-host") {
        Some((Effect::Allow, Scope::Host))
    } else if word_is(w, "deny-host") {
        Some((Effect::Deny, Scope::Host))
    } else if word_is(w, "allow-dest") {
        Some((Effect::Allow, Scope::Dest))
    } else if word_is(w, "deny-dest") {
        Some((Effect::Deny, Scope::Dest))
    } else if word_is(w, "allow-host-from") {
        Some((Effect::Allow, Scope::HostFrom))
    } else if word_is(w, "allow-dest-from") {
        Some((Effect::Allow, Scope::DestFrom))
    } else if word_is(w, "deny-host-from") {
        Some((Effect::Deny, Scope::HostFrom))
    } else if word_is(w, "deny-dest-from") {
        Some((Effect::Deny, Scope::DestFrom))
    } else {
        None
    }
}

/// How a rule type is spelled.
pub fn kind_name(effect: Effect, scope: Scope) -> (r: &'static str)
    ensures
        r@ == kind_text(effect, scope),
{
    match (effect, scope) {
        (Effect::Allow, Scope::App) => "allow-app",
        (Effect::Deny, Scope::App) => "deny-app",
        (Effect::Allow, Scope::Host) => "allow-host",
        (Effect::Deny, Scope::Host) => "deny-host",
        (Effect::Allow, Scope::Dest) => "allow-dest",
        (Effect::Deny, Scope::Dest) => "deny-dest",
        (Effect::Allow, Scope::HostFrom) => "allow-host-from",
        (Effect::Allow, Scope::DestFrom) => "allow-dest-from",
        (Effect::Deny, Scope::HostFrom) => "deny-host-from",
        (Effect::Deny, Scope::DestFrom) => "deny-dest-from",
    }
}

/// `KINDS` lists exactly the words that name a rule type.
pub proof fn lemma_kinds_listed(w: Seq<char>)
    ensures
        kind_of(w) is Some <==> exists|i: int| 0 <= i < 10 && #[trigger] KINDS@[i]@ == w,
{
    assert(KINDS@[0]@ == "allow-app"@);
    assert(KINDS@[1]@ == "deny-app"@);
    assert(KINDS@[2]@ == "allow-host"@);
    assert(KINDS@[3]@ == "deny-host"@);
    assert(KINDS@[4]@ == "allow-dest"@);
    assert(KINDS@[5]@ == "deny-dest"@);
    assert(KINDS@[6]@ == "allow-host-from"@);
    assert(KINDS@[7]@ == "allow-dest-from"@);
    assert(KINDS@[8]@ == "deny-host-from"@);
    assert(KINDS@[9]@ == "deny-dest-from"@);
}

/// A word of small letters and hyphens.
pub open spec fn is_plain(w: Seq<char>) -> bool {
    &&& w.len() > 0
    &&& forall|i: int| 0 <= i < w.len() ==> ('a' <= #[trigger] w[i] <= 'z' || w[i] == '-')
}

/// A plain word is its own lower case, and trimming leaves it alone.
pub proof fn lemma_plain_word(w: Seq<char>)
    requires
        is_plain(w),
    ensures
        lowercase(w) == w,
        trim(w) == w,
{
    assert(is_ascii_chars(w));
    assert(crate::platform::ascii_lowercase(w) =~= w);
    assert(!is_white(w[0]) && !is_white(w[w.len() - 1]));
    lemma_trim_fixed(w);
}

/// Reading how a mode is spelled gives that mode.
pub proof fn lemma_mode_back(m: Mode)
    ensures
        mode_of(m.name()) == Some(m),
        is_plain(m.name()),
{
    reveal_strlit("visibility");
    reveal_strlit("listen");
    reveal_strlit("observe");
    reveal_strlit("enforcement");
    reveal_strlit("enforce");
    lemma_plain_word(m.name());
    assert("visibility"@[0] != "enforcement"@[0]);
}

/// Reading how a backend is spelled gives that backend.
pub proof fn lemma_attribution_back(a: AttributionMode)
    ensures
        attribution_of(a.name()) == Some(a),
        is_plain(a.name()),
{
    reveal_strlit("kernel");
    reveal_strlit("procstat");
    lemma_plain_word(a.name());
    assert("kernel"@[0] != "procstat"@[0]);
}

/// Reading how a rule type is spelled gives that rule type.
pub proof fn lemma_kind_back(effect: Effect, scope: Scope)
    ensures
        kind_of(kind_text(effect, scope)) == Some((effect, scope)),
        is_plain(kind_text(effect, scope)),
{
    reveal_strlit("allow-app");
    reveal_strlit("deny-app");
    reveal_strlit("allow-host");
    reveal_strlit("deny-host");
    reveal_strlit("allow-dest");
    reveal_strlit("deny-dest");
    reveal_strlit("allow-host-from");
    reveal_strlit("allow-dest-from");
    reveal_strlit("deny-host-from");
    reveal_strlit("deny-dest-from");
    assert("allow-app"@[0] != "deny-host"@[0]);
    assert("allow-app"@[0] != "deny-dest"@[0]);
    assert("allow-host"@[6] != "allow-dest"@[6]);
    assert("deny-host"@[5] != "deny-dest"@[5]);
    assert("allow-host-from"@[6] != "allow-dest-from"@[6]);
    assert("deny-host-from"@[5] != "deny-dest-from"@[5]);
    assert("allow-app"@.len() == 9 && "deny-app"@.len() == 8 && "allow-host"@.len() == 10);
    assert("deny-host"@.len() == 9 && "allow-dest"@.len() == 10 && "deny-dest"@.len() == 9);
    assert("allow-host-from"@.len() == 15 && "allow-dest-from"@.len() == 15);
    assert("deny-host-from"@.len() == 14 && "deny-dest-from"@.len() == 14);
}

} // verus!
