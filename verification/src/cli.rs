//! What the words of a command line ask for.
use crate::apps::texts_of;
use crate::text::{chars_of, push_text, same, string_of};
use crate::words::{kind_name, kind_of, kind_text, parse_kind, Effect, Mode, Scope};
use vstd::prelude::*;

verus! {

/// A command of the program.
#[derive(Debug, Clone, Copy, PartialEq, Eq, Structural)]
pub enum Command {
    Probe,
    Run(Mode),
    Rules,
    Add(Effect),
    Remove,
    Status,
    Mode,
    Attribution,
    Apps,
    Forget,
    Clear,
    Help,
    Unknown,
}

/// The command that a word names.
pub open spec fn command_of(w: Seq<char>) -> Command {
    if w == "probe"@ {
        Command::Probe
    } else if w == "visibility"@ || w == "listen"@ {
        Command::Run(Mode::Visibility)
    } else if w == "enforcement"@ || w == "enforce"@ {
        Command::Run(Mode::Enforcement)
    } else if w == "rules"@ || w == "list"@ {
        Command::Rules
    } else if w == "allow"@ {
        Command::Add(Effect::Allow)
    } else if w == "deny"@ {
        Command::Add(Effect::Deny)
    } else if w == "rm"@ || w == "remove"@ {
        Command::Remove
    } else if w == "status"@ {
        Command::Status
    } else if w == "mode"@ {
        Command::Mode
    } else if w == "attribution"@ {
        Command::Attribution
    } else if w == "apps"@ {
        Command::Apps
    } else if w == "forget"@ {
        Command::Forget
    } else if w == "clear"@ {
        Command::Clear
    } else if w == "help"@ || w == "-h"@ || w == "--help"@ {
        Command::Help
    } else {
        Command::Unknown
    }
}

/// The command on a command line. Without one, help is what is wanted.
pub fn command(args: &[String]) -> (r: Command)
    ensures
        r == (if args@.len() < 2 {
            Command::Help
        } else {
            command_of(args@[1]@)
        }),
{
    if args.len() < 2 {
        return Command::Help;
    }
    let w = args[1].as_str();
    if same(w, "probe") {
        Command::Probe
    } else if same(w, "visibility") || same(w, "listen") {
        Command::Run(Mode::Visibility)
    } else if same(w, "enforcement") || same(w, "enforce") {
        Command::Run(Mode::Enforcement)
    } else if same(w, "rules") || same(w, "list") {
        Command::Rules
    } else if same(w, "allow") {
        Command::Add(Effect::Allow)
    } else if same(w, "deny") {
        Command::Add(Effect::Deny)
    } else if same(w, "rm") || same(w, "remove") {
        Command::Remove
    } else if same(w, "status") {
        Command::Status
    } else if same(w, "mode") {
        Command::Mode
    } else if same(w, "attribution") {
        Command::Attribution
    } else if same(w, "apps") {
        Command::Apps
    } else if same(w, "forget") {
        Command::Forget
    } else if same(w, "clear") {
        Command::Clear
    } else if same(w, "help") || same(w, "-h") || same(w, "--help") {
        Command::Help
    } else {
        Command::Unknown
    }
}

/// Where a word first stands on a command line; the length if nowhere.
pub open spec fn place_of(args: Seq<Seq<char>>, flag: Seq<char>) -> int
    decreases args.len(),
{
    if args.len() == 0 || args[0] == flag {
        0
    } else {
        1 + place_of(args.skip(1), flag)
    }
}

/// The word after a flag.
pub open spec fn after_flag(args: Seq<Seq<char>>, flag: Seq<char>) -> Option<Seq<char>> {
    let i = place_of(args, flag);
    if i + 1 < args.len() {
        Some(args[i + 1])
    } else {
        None
    }
}

proof fn lemma_place_is(args: Seq<Seq<char>>, flag: Seq<char>, i: int)
    requires
        0 <= i <= args.len(),
        forall|j: int| 0 <= j < i ==> #[trigger] args[j] != flag,
        i < args.len() ==> args[i] == flag,
    ensures
        place_of(args, flag) == i,
    decreases args.len(),
{
    if i > 0 {
        assert(args[0] != flag);
        assert forall|j: int| 0 <= j < i - 1 implies #[trigger] args.skip(1)[j] != flag by {
            assert(args[j + 1] != flag);
        }
        lemma_place_is(args.skip(1), flag, i - 1);
    }
}

fn position(args: &[String], flag: &str) -> (r: usize)
    ensures
        r == place_of(texts_of(args@), flag@),
        r <= args@.len(),
{
    let n: usize = args.len();
    let ghost all = texts_of(args@);
    for i in 0..n
        invariant
            n == args@.len(),
            all == texts_of(args@),
            forall|j: int| 0 <= j < i ==> #[trigger] all[j] != flag@,
    {
        if same(args[i].as_str(), flag) {
            proof {
                lemma_place_is(all, flag@, i as int);
            }
            return i;
        }
    }
    proof {
        lemma_place_is(all, flag@, n as int);
    }
    n
}

/// Does a flag stand on a command line?
pub fn has_flag(args: &[String], flag: &str) -> (r: bool)
    ensures
        r == (place_of(texts_of(args@), flag@) < args@.len()),
{
    position(args, flag) < args.len()
}

fn flag_value(args: &[String], flag: &str) -> (r: Option<String>)
    ensures
        (match r {
            Some(v) => after_flag(texts_of(args@), flag@) == Some(v@),
            None => after_flag(texts_of(args@), flag@) is None,
        }),
{
    let i = position(args, flag);
    let n: usize = args.len();
    if i < n && n - i > 1 {
        Some(args[i + 1].clone())
    } else {
        None
    }
}

/// A rule to add.
#[derive(Debug)]
pub struct AddRequest {
    pub kind: String,
    pub value: String,
    pub note: Option<String>,
}

/// A rule to add, as a value.
pub ghost struct AddView {
    pub kind: Seq<char>,
    pub value: Seq<char>,
    pub note: Option<Seq<char>>,
}

impl View for AddRequest {
    type V = AddView;

    open spec fn view(&self) -> AddView {
        AddView {
            kind: self.kind@,
            value: self.value@,
            note: match self.note {
                Some(n) => Some(n@),
                None => None,
            },
        }
    }
}

/// Why a request to add a rule cannot be followed.
#[derive(Debug, Clone, Copy, PartialEq, Eq, Structural)]
pub enum AddError {
    /// The destination or its type is missing.
    Usage,
    /// A flag that narrows the rule to a binary has no binary after it. The rule
    /// must not be made for every binary instead.
    NoBinary,
    /// There is no such type of destination.
    UnknownTarget,
}

/// What a rule is to be about.
pub open spec fn scope_for(what: Seq<char>, scoped: bool) -> Option<Scope> {
    if what == "host"@ {
        Some(
            if scoped {
                Scope::HostFrom
            } else {
                Scope::Host
            },
        )
    } else if what == "app"@ {
        Some(Scope::App)
    } else if what == "dest"@ || what == "ip"@ {
        Some(
            if scoped {
                Scope::DestFrom
            } else {
                Scope::Dest
            },
        )
    } else {
        None
    }
}

/// The rule that a command line asks for. A scoped rule holds both halves in its
/// value, the destination first.
pub open spec fn add_request_of(args: Seq<Seq<char>>, effect: Effect) -> Result<AddView, AddError> {
    let from = after_flag(args, "--from"@);
    if args.len() < 4 {
        Err(AddError::Usage)
    } else if place_of(args, "--from"@) < args.len() && from is None {
        Err(AddError::NoBinary)
    } else {
        match scope_for(args[2], from is Some) {
            None => Err(AddError::UnknownTarget),
            Some(scope) => Ok(
                AddView {
                    kind: kind_text(effect, scope),
                    value: if scope == Scope::HostFrom || scope == Scope::DestFrom {
                        args[3] + seq![' '] + from->0
                    } else {
                        args[3]
                    },
                    note: after_flag(args, "--note"@),
                },
            ),
        }
    }
}

fn parse_scope(what: &str, scoped: bool) -> (r: Option<Scope>)
    ensures
        r == scope_for(what@, scoped),
{
    if same(what, "host") {
        Some(
            if scoped {
                Scope::HostFrom
            } else {
                Scope::Host
            },
        )
    } else if same(what, "app") {
        Some(Scope::App)
    } else if same(what, "dest") || same(what, "ip") {
        Some(
            if scoped {
                Scope::DestFrom
            } else {
                Scope::Dest
            },
        )
    } else {
        None
    }
}

/// The rule that `allow` or `deny` is asked to add.
pub fn add_request(args: &[String], effect: Effect) -> (r: Result<AddRequest, AddError>)
    ensures
        (match r {
            Ok(a) => add_request_of(texts_of(args@), effect) == Ok::<AddView, AddError>(a@),
            Err(e) => add_request_of(texts_of(args@), effect) == Err::<AddView, AddError>(e),
        }),
{
    if args.len() < 4 {
        return Err(AddError::Usage);
    }
    let from = flag_value(args, "--from");
    if has_flag(args, "--from") && from.is_none() {
        return Err(AddError::NoBinary);
    }
    let scope = match parse_scope(args[2].as_str(), from.is_some()) {
        Some(s) => s,
        None => return Err(AddError::UnknownTarget),
    };
    let ghost all = texts_of(args@);
    let value = match (scope, &from) {
        (Scope::HostFrom, Some(e)) | (Scope::DestFrom, Some(e)) => {
            let mut out: Vec<char> = Vec::new();
            push_text(&mut out, args[3].as_str());
            out.push(' ');
            push_text(&mut out, e.as_str());
            assert(out@ =~= all[3] + seq![' '] + e@);
            string_of(&out)
        },
        _ => args[3].clone(),
    };
    Ok(
        AddRequest {
            kind: kind_name(effect, scope).to_owned(),
            value,
            note: flag_value(args, "--note"),
        },
    )
}

/// Why a request to remove a rule cannot be followed.
#[derive(Debug, Clone, Copy, PartialEq, Eq, Structural)]
pub enum RemoveError {
    Usage,
    UnknownKind,
}

/// Words with a space between them.
pub open spec fn spaced(words: Seq<Seq<char>>) -> Seq<char>
    decreases words.len(),
{
    if words.len() == 0 {
        Seq::empty()
    } else if words.len() == 1 {
        words[0]
    } else {
        spaced(words.drop_last()) + seq![' '] + words.last()
    }
}

/// Is a rule type about one binary?
pub open spec fn is_scoped_kind(kind: Seq<char>) -> bool {
    match kind_of(kind) {
        Some((_, Scope::HostFrom)) => true,
        Some((_, Scope::DestFrom)) => true,
        _ => false,
    }
}

/// The rule that a command line asks to remove. A scoped rule is printed as two
/// words or more, so it is accepted that way too.
pub open spec fn remove_request_of(args: Seq<Seq<char>>) -> Result<
    (Seq<char>, Seq<char>),
    RemoveError,
> {
    if args.len() < 4 {
        Err(RemoveError::Usage)
    } else if kind_of(args[2]) is None {
        Err(RemoveError::UnknownKind)
    } else if is_scoped_kind(args[2]) {
        Ok((args[2], spaced(args.skip(3))))
    } else {
        Ok((args[2], args[3]))
    }
}

fn join_from(args: &[String], start: usize) -> (r: String)
    requires
        start < args@.len(),
    ensures
        r@ == spaced(texts_of(args@).skip(start as int)),
{
    let mut out: Vec<char> = Vec::new();
    let n: usize = args.len();
    let ghost all = texts_of(args@).skip(start as int);
    push_text(&mut out, args[start].as_str());
    proof {
        assert(all.take(1) =~= seq![all[0]]);
        assert(out@ =~= spaced(all.take(1)));
    }
    let mut i: usize = start + 1;
    while i < n
        invariant
            n == args@.len(),
            start < i <= n,
            all == texts_of(args@).skip(start as int),
            out@ == spaced(all.take(i - start)),
        decreases n - i,
    {
        out.push(' ');
        push_text(&mut out, args[i].as_str());
        proof {
            let k = i - start;
            assert(all.take(k + 1).drop_last() =~= all.take(k));
            assert(all.take(k + 1).last() == args@[i as int]@);
            assert(out@ =~= spaced(all.take(k)) + seq![' '] + all[k]);
        }
        i = i + 1;
    }
    assert(all.take(n - start) =~= all);
    string_of(&out)
}

/// The rule that `rm` is asked to remove: its type and its value.
pub fn remove_request(args: &[String]) -> (r: Result<(String, String), RemoveError>)
    ensures
        (match r {
            Ok((k, v)) => remove_request_of(texts_of(args@)) == Ok::<
                (Seq<char>, Seq<char>),
                RemoveError,
            >((k@, v@)),
            Err(e) => remove_request_of(texts_of(args@)) == Err::<
                (Seq<char>, Seq<char>),
                RemoveError,
            >(e),
        }),
{
    if args.len() < 4 {
        return Err(RemoveError::Usage);
    }
    let kind = args[2].clone();
    match parse_kind(&chars_of(args[2].as_str())) {
        None => Err(RemoveError::UnknownKind),
        Some((_, Scope::HostFrom)) | Some((_, Scope::DestFrom)) => Ok((kind, join_from(args, 3))),
        Some(_) => Ok((kind, args[3].clone())),
    }
}

/// Why a request to forget a binary cannot be followed.
#[derive(Debug, Clone, Copy, PartialEq, Eq, Structural)]
pub enum ForgetError {
    Usage,
    /// The rules that cover every binary belong to none: they keep the machine
    /// on the network, and are removed one by one.
    Unscoped,
}

/// The binary that `forget` is asked to forget.
pub fn forget_request(args: &[String]) -> (r: Result<String, ForgetError>)
    ensures
        (match r {
            Ok(e) => args@.len() >= 3 && e@ == args@[2]@ && e@.len() > 0 && e@ != "-"@,
            Err(ForgetError::Usage) => args@.len() < 3 || args@[2]@.len() == 0,
            Err(ForgetError::Unscoped) => args@.len() >= 3 && args@[2]@ == "-"@,
        }),
{
    if args.len() < 3 || args[2].as_str().is_empty() {
        return Err(ForgetError::Usage);
    }
    if same(args[2].as_str(), "-") {
        return Err(ForgetError::Unscoped);
    }
    Ok(args[2].clone())
}

/// A flag that narrows a rule never ends in a rule for every binary: with it the
/// rule is scoped or refused, unless it is about a whole application.
pub proof fn lemma_narrowing_is_kept(args: Seq<Seq<char>>, effect: Effect)
    requires
        place_of(args, "--from"@) < args.len(),
    ensures
        add_request_of(args, effect) matches Ok(a) ==> a.kind == kind_text(effect, Scope::HostFrom)
            || a.kind == kind_text(effect, Scope::DestFrom) || a.kind == kind_text(
            effect,
            Scope::App,
        ),
{
}

} // verus!
