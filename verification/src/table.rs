//! Keyed tables: a vector of entries in which no key occurs twice.
use crate::addr::IpAddr;
use crate::text::same;
use vstd::prelude::*;

verus! {

/// A value that is looked up by what it means rather than by how it is stored.
pub trait Keyed: Sized {
    /// The meaning of a key.
    type K;

    /// What this key means.
    spec fn key(&self) -> Self::K;

    /// Do two keys mean the same?
    fn same_key(&self, other: &Self) -> (r: bool)
        ensures
            r == (self.key() == other.key()),
    ;
}

impl Keyed for String {
    type K = Seq<char>;

    open spec fn key(&self) -> Seq<char> {
        self@
    }

    fn same_key(&self, other: &Self) -> (r: bool) {
        same(self.as_str(), other.as_str())
    }
}

impl Keyed for IpAddr {
    type K = IpAddr;

    open spec fn key(&self) -> IpAddr {
        *self
    }

    fn same_key(&self, other: &Self) -> (r: bool) {
        *self == *other
    }
}

impl Keyed for (String, Option<u16>) {
    type K = (Seq<char>, Option<u16>);

    open spec fn key(&self) -> (Seq<char>, Option<u16>) {
        (self.0@, self.1)
    }

    fn same_key(&self, other: &Self) -> (r: bool) {
        same_port(self.1, other.1) && same(self.0.as_str(), other.0.as_str())
    }
}

impl Keyed for (IpAddr, Option<u16>) {
    type K = (IpAddr, Option<u16>);

    open spec fn key(&self) -> (IpAddr, Option<u16>) {
        *self
    }

    fn same_key(&self, other: &Self) -> (r: bool) {
        same_port(self.1, other.1) && self.0 == other.0
    }
}

impl Keyed for (String, String) {
    type K = (Seq<char>, Seq<char>);

    open spec fn key(&self) -> (Seq<char>, Seq<char>) {
        (self.0@, self.1@)
    }

    fn same_key(&self, other: &Self) -> (r: bool) {
        same(self.0.as_str(), other.0.as_str()) && same(self.1.as_str(), other.1.as_str())
    }
}

impl Keyed for (String, String, Option<u16>) {
    type K = (Seq<char>, Seq<char>, Option<u16>);

    open spec fn key(&self) -> (Seq<char>, Seq<char>, Option<u16>) {
        (self.0@, self.1@, self.2)
    }

    fn same_key(&self, other: &Self) -> (r: bool) {
        same_port(self.2, other.2) && same(self.0.as_str(), other.0.as_str()) && same(
            self.1.as_str(),
            other.1.as_str(),
        )
    }
}

impl Keyed for (String, IpAddr, Option<u16>) {
    type K = (Seq<char>, IpAddr, Option<u16>);

    open spec fn key(&self) -> (Seq<char>, IpAddr, Option<u16>) {
        (self.0@, self.1, self.2)
    }

    fn same_key(&self, other: &Self) -> (r: bool) {
        same_port(self.2, other.2) && self.1 == other.1 && same(self.0.as_str(), other.0.as_str())
    }
}

/// Are two optional ports the same?
pub fn same_port(a: Option<u16>, b: Option<u16>) -> (r: bool)
    ensures
        r == (a == b),
{
    match (a, b) {
        (None, None) => true,
        (Some(x), Some(y)) => x == y,
        _ => false,
    }
}

/// A table from keys to values.
pub struct Table<K: Keyed, V> {
    pub slots: Vec<(K, V)>,
}

impl<K: Keyed, V> View for Table<K, V> {
    type V = Map<K::K, V>;

    open spec fn view(&self) -> Map<K::K, V> {
        Map::new(
            |k: K::K| self.keys().contains(k),
            |k: K::K| self.slots@[self.keys().index_of(k)].1,
        )
    }
}

impl<K: Keyed, V> Table<K, V> {
    /// The keys in the order in which they were first inserted.
    pub open spec fn keys(&self) -> Seq<K::K> {
        Seq::new(self.slots@.len(), |i: int| self.slots@[i].0.key())
    }

    /// No key occurs twice.
    pub open spec fn wf(&self) -> bool {
        self.keys().no_duplicates()
    }

    /// An empty table.
    pub fn new() -> (r: Self)
        ensures
            r.wf(),
            r@ == Map::<K::K, V>::empty(),
    {
        let r = Table { slots: Vec::new() };
        assert(r@ =~= Map::<K::K, V>::empty());
        r
    }

    /// How many entries there are.
    pub fn len(&self) -> (r: usize)
        requires
            self.wf(),
        ensures
            r == self@.dom().len(),
            r == self.slots@.len(),
    {
        proof {
            self.lemma_len();
        }
        self.slots.len()
    }

    /// The number of keys is the number of entries.
    pub proof fn lemma_len(&self)
        requires
            self.wf(),
        ensures
            self@.dom().len() == self.slots@.len(),
            self@.dom().finite(),
    {
        self.keys().unique_seq_to_set();
        assert(self@.dom() =~= self.keys().to_set());
    }

    /// Every entry is found under its key.
    pub proof fn lemma_slot(&self, i: int)
        requires
            self.wf(),
            0 <= i < self.slots@.len(),
        ensures
            self@.contains_key(self.slots@[i].0.key()),
            self@[self.slots@[i].0.key()] == self.slots@[i].1,
    {
        let k = self.slots@[i].0.key();
        assert(self.keys()[i] == k);
        assert(self.keys().contains(k));
        assert(self.keys().index_of(k) == i);
    }

    /// Every key has an entry.
    pub proof fn lemma_key(&self, k: K::K) -> (i: int)
        requires
            self.wf(),
            self@.contains_key(k),
        ensures
            0 <= i < self.slots@.len(),
            self.slots@[i].0.key() == k,
            self@[k] == self.slots@[i].1,
    {
        let i = self.keys().index_of(k);
        assert(self.keys().contains(k));
        assert(self.keys()[i] == k);
        i
    }

    /// Where a key stands; the length if it is absent.
    fn position(&self, k: &K) -> (r: usize)
        requires
            self.wf(),
        ensures
            r <= self.slots@.len(),
            r < self.slots@.len() <==> self@.contains_key(k.key()),
            r < self.slots@.len() ==> self.slots@[r as int].0.key() == k.key(),
    {
        let n: usize = self.slots.len();
        for i in 0..n
            invariant
                n == self.slots@.len(),
                self.wf(),
                forall|j: int| 0 <= j < i ==> (#[trigger] self.slots@[j]).0.key() != k.key(),
        {
            if self.slots[i].0.same_key(k) {
                proof {
                    self.lemma_slot(i as int);
                }
                return i;
            }
        }
        proof {
            if self@.contains_key(k.key()) {
                let j = self.lemma_key(k.key());
                assert(false);
            }
        }
        n
    }

    /// Is there an entry under this key?
    pub fn contains(&self, k: &K) -> (r: bool)
        requires
            self.wf(),
        ensures
            r == self@.contains_key(k.key()),
    {
        self.position(k) < self.slots.len()
    }

    /// The value under a key.
    pub fn get(&self, k: &K) -> (r: Option<&V>)
        requires
            self.wf(),
        ensures
            (match r {
                Some(v) => self@.contains_key(k.key()) && *v == self@[k.key()],
                None => !self@.contains_key(k.key()),
            }),
    {
        let i = self.position(k);
        if i < self.slots.len() {
            proof {
                self.lemma_slot(i as int);
            }
            Some(&self.slots[i].1)
        } else {
            None
        }
    }

    /// Set the value under a key, replacing what was there.
    pub fn insert(&mut self, k: K, v: V)
        requires
            old(self).wf(),
        ensures
            final(self).wf(),
            final(self)@ == old(self)@.insert(k.key(), v),
            final(self).slots@.len() == old(self).slots@.len() + (if old(self)@.contains_key(
                k.key(),
            ) {
                0int
            } else {
                1
            }),
    {
        let ghost before = *self;
        let i = self.position(&k);
        if i < self.slots.len() {
            self.slots.set(i, (k, v));
            proof {
                assert(self.keys() =~= before.keys());
                assert(self@ =~= before@.insert(k.key(), v)) by {
                    assert forall|q: K::K| self@.contains_key(q) implies #[trigger] self@[q]
                        == before@.insert(k.key(), v)[q] by {
                        let j = self.lemma_key(q);
                        before.lemma_slot(j);
                        if j == i {
                            assert(q == k.key());
                        } else {
                            assert(self.keys()[j] == q && self.keys()[i as int] == k.key());
                            assert(q != k.key());
                        }
                    }
                    before.lemma_slot(i as int);
                }
            }
        } else {
            self.slots.push((k, v));
            proof {
                let n = before.slots@.len() as int;
                assert(self.keys() =~= before.keys().push(k.key()));
                assert forall|a: int, b: int|
                    0 <= a < self.keys().len() && 0 <= b < self.keys().len() && a
                        != b implies self.keys()[a] != self.keys()[b] by {
                    if a < n {
                        before.lemma_slot(a);
                    }
                    if b < n {
                        before.lemma_slot(b);
                    }
                }
                assert(self@ =~= before@.insert(k.key(), v)) by {
                    self.lemma_slot(n);
                    assert forall|q: K::K| self@.contains_key(q) <==> before@.insert(
                        k.key(),
                        v,
                    ).contains_key(q) by {
                        if self@.contains_key(q) {
                            let j = self.lemma_key(q);
                            if j < n {
                                before.lemma_slot(j);
                            }
                        }
                        if before@.contains_key(q) {
                            let j = before.lemma_key(q);
                            self.lemma_slot(j);
                        }
                    }
                    assert forall|q: K::K| self@.contains_key(q) implies #[trigger] self@[q]
                        == before@.insert(k.key(), v)[q] by {
                        let j = self.lemma_key(q);
                        if j < n {
                            before.lemma_slot(j);
                        }
                    }
                }
            }
        }
    }

    /// Drop one entry.
    pub fn remove_at(&mut self, i: usize)
        requires
            old(self).wf(),
            i < old(self).slots@.len(),
        ensures
            final(self).wf(),
            final(self).slots@ == old(self).slots@.remove(i as int),
            final(self)@ == old(self)@.remove(old(self).slots@[i as int].0.key()),
    {
        let ghost before = *self;
        let ghost gone = self.slots@[i as int].0.key();
        self.slots.remove(i);
        proof {
            assert(self.keys() =~= before.keys().remove(i as int));
            assert forall|a: int, b: int|
                0 <= a < self.keys().len() && 0 <= b < self.keys().len() && a
                    != b implies self.keys()[a] != self.keys()[b] by {
                let x = if a < i {
                    a
                } else {
                    a + 1
                };
                let y = if b < i {
                    b
                } else {
                    b + 1
                };
                assert(before.keys()[x] != before.keys()[y]);
            }
            assert forall|q: K::K| self@.contains_key(q) <==> before@.remove(gone).contains_key(
                q,
            ) by {
                if self@.contains_key(q) {
                    let j = self.lemma_key(q);
                    let x = if j < i {
                        j
                    } else {
                        j + 1
                    };
                    before.lemma_slot(x);
                    assert(before.keys()[x] != before.keys()[i as int]);
                }
                if before@.remove(gone).contains_key(q) {
                    let j = before.lemma_key(q);
                    self.lemma_slot(
                        if j < i {
                            j
                        } else {
                            j - 1
                        },
                    );
                }
            }
            assert forall|q: K::K| self@.contains_key(q) implies #[trigger] self@[q]
                == before@.remove(gone)[q] by {
                let j = self.lemma_key(q);
                before.lemma_slot(
                    if j < i {
                        j
                    } else {
                        j + 1
                    },
                );
            }
            assert(self@ =~= before@.remove(gone));
        }
    }

    /// Forget a key.
    pub fn remove(&mut self, k: &K)
        requires
            old(self).wf(),
        ensures
            final(self).wf(),
            final(self)@ == old(self)@.remove(k.key()),
    {
        let i = self.position(k);
        if i < self.slots.len() {
            self.remove_at(i);
        } else {
            assert(self@ =~= old(self)@.remove(k.key()));
        }
    }

    /// Forget everything.
    pub fn clear(&mut self)
        ensures
            final(self).wf(),
            final(self)@ == Map::<K::K, V>::empty(),
            final(self).slots@.len() == 0,
    {
        self.slots.clear();
        assert(self@ =~= Map::<K::K, V>::empty());
    }
}

/// A set of keys.
pub type Pool<K> = Table<K, ()>;

} // verus!
