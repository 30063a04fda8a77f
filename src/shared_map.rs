use crate::key::SlotKey;
use vstd::prelude::*;

verus! {

/// A mapping from keys to values that remembers the order in which keys
/// were first set. No two entries have keys with the same view.
pub struct SharedMap<K, V> {
    entries: Vec<(K, V)>,
}

impl<K: View, V> SharedMap<K, V> {
    /// The entries, in insertion order.
    pub closed spec fn entries(&self) -> Seq<(K, V)> {
        self.entries@
    }

    /// The views of the keys, in insertion order.
    pub open spec fn keys(&self) -> Seq<K::V> {
        self.entries().map_values(|e: (K, V)| e.0@)
    }

    pub open spec fn wf(&self) -> bool {
        self.keys().no_duplicates()
    }

    pub open spec fn len(&self) -> nat {
        self.entries().len()
    }

    pub open spec fn has_key(&self, k: K::V) -> bool {
        self.keys().contains(k)
    }

    /// The position of the entry whose key has view `k`.
    pub open spec fn index_of(&self, k: K::V) -> int {
        self.keys().index_of(k)
    }

    /// The value under `k`, for a key that is present.
    pub open spec fn value_of(&self, k: K::V) -> V {
        self.entries()[self.index_of(k)].1
    }
}

impl<K: SlotKey, V> SharedMap<K, V> {
    pub fn new() -> (r: Self)
        ensures
            r.entries() == Seq::<(K, V)>::empty(),
            r.wf(),
    {
        SharedMap { entries: Vec::new() }
    }

    fn find(&self, key: &K) -> (r: Option<usize>)
        requires
            self.wf(),
        ensures
            match r {
                Some(i) => i < self.len() && self.keys()[i as int] == key@ && i == self.index_of(
                    key@,
                ),
                None => !self.has_key(key@),
            },
    {
        let mut i: usize = 0;
        while i < self.entries.len()
            invariant
                i <= self.len(),
                self.entries() == self.entries@,
                self.wf(),
                forall|j: int| 0 <= j < i ==> self.keys()[j] != key@,
            decreases self.len() - i,
        {
            if key.same_as(&self.entries[i].0) {
                proof {
                    lemma_index_of_unique(self.keys(), i as int);
                }
                return Some(i);
            }
            i += 1;
        }
        None
    }

    /// The value under `key`, if there is one.
    pub fn get(&self, key: &K) -> (r: Option<V>) where V: Clone
        requires
            self.wf(),
        ensures
            r is Some == self.has_key(key@),
            r is Some ==> cloned(self.value_of(key@), r->0),
    {
        match self.find(key) {
            Some(i) => Some(self.entries[i].1.clone()),
            None => None,
        }
    }

    /// Puts `value` under `key`. A new key goes last; a present key keeps
    /// its place and has its value replaced.
    pub fn set(&mut self, key: K, value: V)
        requires
            old(self).wf(),
        ensures
            final(self).wf(),
            final(self).has_key(key@),
            final(self).value_of(key@) == value,
            old(self).has_key(key@) ==> final(self).keys() == old(self).keys(),
            !old(self).has_key(key@) ==> final(self).keys() == old(self).keys().push(key@),
            forall|k: K::V|
                k != key@ && #[trigger] old(self).has_key(k) ==> final(self).has_key(k)
                    && final(self).value_of(k) == old(self).value_of(k),
    {
        match self.find(&key) {
            Some(i) => {
                let ghost kv = key@;
                self.entries.set(i, (key, value));
                assert(self.keys() =~= old(self).keys().update(i as int, kv));
                assert(self.keys() =~= old(self).keys());
                proof {
                    assert forall|k: K::V|
                        k != kv && #[trigger] old(self).has_key(k) implies self.has_key(k)
                        && self.value_of(k) == old(self).value_of(k) by {
                        let j = old(self).index_of(k);
                        lemma_index_of_unique(self.keys(), j);
                        assert(self.entries()[j] == old(self).entries()[j]);
                    }
                    lemma_index_of_unique(self.keys(), i as int);
                }
            },
            None => {
                let ghost kv = key@;
                self.entries.push((key, value));
                assert(self.keys() =~= old(self).keys().push(kv));
                proof {
                    lemma_push_no_duplicates(old(self).keys(), kv);
                    lemma_index_of_unique(self.keys(), self.len() - 1);

                    assert forall|k: K::V|
                        k != kv && #[trigger] old(self).has_key(k) implies self.has_key(k)
                        && self.value_of(k) == old(self).value_of(k) by {
                        let j = old(self).index_of(k);
                        assert(self.keys()[j] == k);
                        lemma_index_of_unique(self.keys(), j);
                        assert(self.entries()[j] == old(self).entries()[j]);
                    }
                }
            },
        }
    }

    /// Takes out the entry under `key` and returns its value.
    pub fn _remove(&mut self, key: &K) -> (r: Option<V>)
        requires
            old(self).wf(),
        ensures
            final(self).wf(),
            r is Some == old(self).has_key(key@),
            r is Some ==> r->0 == old(self).value_of(key@) && final(self).keys() == old(
                self,
            ).keys().remove(old(self).index_of(key@)),
            r is None ==> *final(self) == *old(self),
    {
        match self.find(key) {
            Some(i) => {
                let e = self.entries.remove(i);
                assert(self.keys() =~= old(self).keys().remove(i as int));
                proof {
                    lemma_remove_no_duplicates(old(self).keys(), i as int);
                }
                Some(e.1)
            },
            None => None,
        }
    }

    pub fn has(&self, key: &K) -> (r: bool)
        requires
            self.wf(),
        ensures
            r == self.has_key(key@),
    {
        self.find(key).is_some()
    }

    pub fn _length(&self) -> (r: usize)
        ensures
            r == self.len(),
    {
        self.entries.len()
    }

    /// A second map with the same keys and values, in the same order.
    pub fn _clone_content(&self) -> (r: Self) where V: Clone
        requires
            self.wf(),
        ensures
            r.wf(),
            r.keys() == self.keys(),
            forall|i: int|
                0 <= i < r.len() ==> cloned(self.entries()[i].1, #[trigger] r.entries()[i].1),
    {
        let mut out: Vec<(K, V)> = Vec::new();
        let mut i: usize = 0;
        while i < self.entries.len()
            invariant
                i <= self.len(),
                self.entries() == self.entries@,
                out@.len() == i,
                forall|j: int| 0 <= j < i ==> (#[trigger] out@[j]).0@ == self.keys()[j],
                forall|j: int| 0 <= j < i ==> cloned(self.entries()[j].1, #[trigger] out@[j].1),
            decreases self.len() - i,
        {
            let k = self.entries[i].0.duplicate();
            let v = self.entries[i].1.clone();
            out.push((k, v));
            i += 1;
        }
        let r = SharedMap { entries: out };
        assert(r.keys() =~= self.keys());
        r
    }

    /// The entries, in insertion order.
    pub fn borrow(&self) -> (r: &Vec<(K, V)>)
        ensures
            r@ == self.entries(),
    {
        &self.entries
    }
}

/// The entry at `k` holds the value under its key.
pub proof fn lemma_value_at<K: View, V>(m: &SharedMap<K, V>, k: int)
    requires
        m.wf(),
        0 <= k < m.len(),
    ensures
        m.has_key(m.keys()[k]),
        m.value_of(m.keys()[k]) == m.entries()[k].1,
{
    lemma_index_of_unique(m.keys(), k);
}

/// In a sequence without repeats, an item's index is the one place it is at.
proof fn lemma_index_of_unique<A>(s: Seq<A>, i: int)
    requires
        s.no_duplicates(),
        0 <= i < s.len(),
    ensures
        s.contains(s[i]),
        s.index_of(s[i]) == i,
{
    assert(s.contains(s[i]));
}

proof fn lemma_push_no_duplicates<A>(s: Seq<A>, x: A)
    requires
        s.no_duplicates(),
        !s.contains(x),
    ensures
        s.push(x).no_duplicates(),
{
    assert forall|i: int, j: int|
        0 <= i < s.push(x).len() && 0 <= j < s.push(x).len() && i != j implies s.push(x)[i]
        != s.push(x)[j] by {
        if i == s.len() as int {
            assert(s.contains(s[j]));
        } else if j == s.len() as int {
            assert(s.contains(s[i]));
        }
    }
}

proof fn lemma_remove_no_duplicates<A>(s: Seq<A>, k: int)
    requires
        s.no_duplicates(),
        0 <= k < s.len(),
    ensures
        s.remove(k).no_duplicates(),
{
    let r = s.remove(k);
    assert forall|i: int, j: int| 0 <= i < r.len() && 0 <= j < r.len() && i != j implies r[i]
        != r[j] by {
        let i0 = if i < k { i } else { i + 1 };
        let j0 = if j < k { j } else { j + 1 };
        assert(r[i] == s[i0] && r[j] == s[j0]);
    }
}

} // verus!
