//! Is the binary behind a rule still the binary that was approved?
//!
//! Policy keys on the path of an executable, but a path is not an identity:
//! replace the file and the replacement inherits every rule. So a content hash
//! is kept beside the rules. Computing one is expensive, and this cache sees to
//! it that a binary is hashed again only when its modification time or its size
//! has changed.
use crate::platform::{lossy, to_text_lossy};
use crate::table::Table;
use crate::text::{chars_of, string_of, trim, trim_chars};
use vstd::prelude::*;

verus! {

/// How many hashes are kept before the cache starts over.
pub const MAX_HASHES: usize = 2048;

/// For each path the modification time and size it had when it was hashed, and
/// the hash.
pub struct Identity {
    pub cache: Table<String, (u64, u64, String)>,
}

/// The cache as a value.
pub type Hashes = Map<Seq<char>, (u64, u64, Seq<char>)>;

impl View for Identity {
    type V = Hashes;

    open spec fn view(&self) -> Hashes {
        self.cache@.map_values(|e: (u64, u64, String)| (e.0, e.1, e.2@))
    }
}

/// The hash on record for a file that has not changed since.
pub open spec fn cached_hash(m: Hashes, path: Seq<char>, mtime: u64, size: u64) -> Option<
    Seq<char>,
> {
    if m.contains_key(path) && m[path].0 == mtime && m[path].1 == size {
        Some(m[path].2)
    } else {
        None
    }
}

/// The hash that a run of the hashing program printed: its output without the
/// white space around it. None if the program failed or printed nothing.
pub open spec fn printed_hash(output: Option<Seq<u8>>) -> Option<Seq<char>> {
    match output {
        Some(b) => if trim(lossy(b)).len() > 0 {
            Some(trim(lossy(b)))
        } else {
            None
        },
        None => None,
    }
}

/// The cache once a file's hash has been asked for.
pub open spec fn remembered(
    m: Hashes,
    path: Seq<char>,
    mtime: u64,
    size: u64,
    output: Option<Seq<u8>>,
) -> Hashes {
    if cached_hash(m, path, mtime, size) is Some {
        m
    } else {
        match printed_hash(output) {
            Some(h) => if m.dom().len() > MAX_HASHES {
                Map::<Seq<char>, (u64, u64, Seq<char>)>::empty().insert(path, (mtime, size, h))
            } else {
                m.insert(path, (mtime, size, h))
            },
            None => m,
        }
    }
}

impl Identity {
    /// No path is stored twice.
    pub open spec fn wf(&self) -> bool {
        self.cache.wf()
    }

    /// An empty cache.
    pub fn new() -> (r: Identity)
        ensures
            r.wf(),
            r@ == Map::<Seq<char>, (u64, u64, Seq<char>)>::empty(),
    {
        let r = Identity { cache: Table::new() };
        assert(r@ =~= Map::<Seq<char>, (u64, u64, Seq<char>)>::empty());
        r
    }

    /// The hash on record for a file that still has this modification time and
    /// size. Without one the file has to be hashed.
    pub fn cached(&self, path: &str, mtime: u64, size: u64) -> (r: Option<String>)
        requires
            self.wf(),
        ensures
            (match r {
                Some(h) => cached_hash(self@, path@, mtime, size) == Some(h@),
                None => cached_hash(self@, path@, mtime, size) is None,
            }),
    {
        let k = path.to_owned();
        match self.cache.get(&k) {
            Some(e) => {
                if e.0 == mtime && e.1 == size {
                    Some(e.2.clone())
                } else {
                    None
                }
            },
            None => None,
        }
    }

    /// The current hash of a binary with this modification time and size, given
    /// what the hashing program printed, if it was run and succeeded. None if
    /// there is neither a hash on record nor a new one.
    pub fn hash(&mut self, path: &str, mtime: u64, size: u64, output: Option<&[u8]>) -> (r: Option<
        String,
    >)
        requires
            old(self).wf(),
        ensures
            final(self).wf(),
            (match r {
                Some(h) => (match cached_hash(old(self)@, path@, mtime, size) {
                    Some(c) => c == h@,
                    None => printed_hash(opt_bytes(output)) == Some(h@),
                }),
                None => cached_hash(old(self)@, path@, mtime, size) is None && printed_hash(
                    opt_bytes(output),
                ) is None,
            }),
            final(self)@ == remembered(old(self)@, path@, mtime, size, opt_bytes(output)),
    {
        if let Some(h) = self.cached(path, mtime, size) {
            return Some(h);
        }
        let out = match output {
            Some(b) => b,
            None => return None,
        };
        let text = to_text_lossy(out);
        let c = chars_of(text.as_str());
        let word = trim_chars(&c);
        if word.len() == 0 {
            return None;
        }
        let h = string_of(word);
        assert(self@.dom() =~= self.cache@.dom());
        if self.cache.len() > MAX_HASHES {
            self.cache.clear();
        }
        self.cache.insert(path.to_owned(), (mtime, size, h.clone()));
        assert(self@ =~= remembered(old(self)@, path@, mtime, size, opt_bytes(output)));
        Some(h)
    }
}

/// Optional bytes as a value.
pub open spec fn opt_bytes(b: Option<&[u8]>) -> Option<Seq<u8>> {
    match b {
        Some(s) => Some(s@),
        None => None,
    }
}

/// A binary that was hashed is not hashed again until its modification time or
/// size changes, and then the old hash no longer counts.
pub proof fn lemma_hashed_once(
    m: Hashes,
    path: Seq<char>,
    mtime: u64,
    size: u64,
    output: Option<Seq<u8>>,
    later: u64,
    grown: u64,
)
    requires
        printed_hash(output) is Some,
        cached_hash(m, path, mtime, size) is None,
    ensures
        ({
            let after = remembered(m, path, mtime, size, output);
            &&& cached_hash(after, path, mtime, size) == printed_hash(output)
            &&& (later != mtime || grown != size) ==> cached_hash(after, path, later, grown) is None
        }),
{
}

/// A binary that cannot be hashed changes nothing: that is no evidence that it
/// was replaced.
pub proof fn lemma_unreadable_changes_nothing(m: Hashes, path: Seq<char>, mtime: u64, size: u64)
    ensures
        remembered(m, path, mtime, size, None) == m,
{
}

/// The cache stays bounded.
pub proof fn lemma_cache_is_bounded(
    m: Hashes,
    path: Seq<char>,
    mtime: u64,
    size: u64,
    output: Option<Seq<u8>>,
)
    requires
        m.dom().finite(),
        m.dom().len() <= MAX_HASHES + 1,
    ensures
        remembered(m, path, mtime, size, output).dom().len() <= MAX_HASHES + 1,
{
    let none = Map::<Seq<char>, (u64, u64, Seq<char>)>::empty();
    if let Some(h) = printed_hash(output) {
        assert(none.insert(path, (mtime, size, h)).dom() =~= set![path]);
        assert(m.insert(path, (mtime, size, h)).dom() =~= m.dom().insert(path));
    }
}

} // verus!
