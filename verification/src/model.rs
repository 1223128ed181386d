//! The mathematical model of a bounded cache with least-recently-used eviction.
//!
//! A cache is described by its capacity and by the list of its entries, ordered
//! from the most recently used to the least recently used. What an operation of the
//! cache does is a function on this model.
use vstd::prelude::*;

verus! {

/// The abstract state of a cache.
pub struct LruState<K, V> {
    /// The largest number of entries the cache may hold.
    pub capacity: nat,
    /// The entries, most recently used first. The last entry is the next victim.
    pub entries: Seq<(K, V)>,
}

/// The first `limit` elements of `s`, or all of `s` if it is not longer than that.
pub open spec fn truncate<A>(s: Seq<A>, limit: nat) -> Seq<A> {
    if s.len() <= limit {
        s
    } else {
        s.subrange(0, limit as int)
    }
}

/// The elements of `s` from the last to the first.
pub open spec fn reversed<A>(s: Seq<A>) -> Seq<A> {
    Seq::new(s.len(), |i: int| s[s.len() - 1 - i])
}

/// No key occurs twice among the pairs.
pub open spec fn keys_distinct<K, V>(pairs: Seq<(K, V)>) -> bool {
    forall|i: int, j: int|
        #![trigger pairs[i], pairs[j]]
        0 <= i < j < pairs.len() ==> pairs[i].0 != pairs[j].0
}

impl<K, V> LruState<K, V> {
    /// The cache of the given capacity that holds nothing.
    pub open spec fn empty(capacity: nat) -> Self {
        LruState { capacity, entries: Seq::empty() }
    }

    /// No key occurs twice.
    pub open spec fn distinct_keys(self) -> bool {
        keys_distinct(self.entries)
    }

    /// The state is one a cache can be in: keys are unique and the capacity is respected.
    pub open spec fn wf(self) -> bool {
        &&& self.distinct_keys()
        &&& self.entries.len() <= self.capacity
    }

    /// The number of entries.
    pub open spec fn len(self) -> nat {
        self.entries.len()
    }

    /// `key` has an entry.
    pub open spec fn contains(self, key: K) -> bool {
        exists|i: int| 0 <= i < self.entries.len() && (#[trigger] self.entries[i]).0 == key
    }

    /// The index of the entry of `key`, counted from the most recently used one.
    pub open spec fn position(self, key: K) -> int
        recommends
            self.contains(key),
    {
        choose|i: int| 0 <= i < self.entries.len() && (#[trigger] self.entries[i]).0 == key
    }

    /// The value stored under `key`, if there is one.
    pub open spec fn lookup(self, key: K) -> Option<V> {
        if self.contains(key) {
            Some(self.entries[self.position(key)].1)
        } else {
            None
        }
    }

    /// The key-value mapping the cache holds, with the recency order forgotten.
    pub open spec fn contents(self) -> Map<K, V> {
        Map::new(|k: K| self.contains(k), |k: K| self.entries[self.position(k)].1)
    }

    /// The most recently used key.
    pub open spec fn mru_key(self) -> K
        recommends
            self.entries.len() > 0,
    {
        self.entries.first().0
    }

    /// The least recently used key: the one the next eviction removes.
    pub open spec fn lru_key(self) -> K
        recommends
            self.entries.len() > 0,
    {
        self.entries.last().0
    }

    /// The entries with the one of `key`, if any, taken out.
    pub open spec fn without(self, key: K) -> Seq<(K, V)> {
        if self.contains(key) {
            self.entries.remove(self.position(key))
        } else {
            self.entries
        }
    }

    /// The state after a read of `key`: a present key moves to the front, an absent
    /// key changes nothing.
    pub open spec fn touch(self, key: K) -> Self {
        if self.contains(key) {
            LruState {
                capacity: self.capacity,
                entries: seq![self.entries[self.position(key)]] + self.without(key),
            }
        } else {
            self
        }
    }

    /// The state after `key` is bound to `value`: the new entry goes to the front, any
    /// older entry of `key` disappears, and what no longer fits falls off the end.
    /// With capacity zero nothing is ever stored.
    pub open spec fn put(self, key: K, value: V) -> Self {
        LruState {
            capacity: self.capacity,
            entries: truncate(seq![(key, value)] + self.without(key), self.capacity),
        }
    }

    /// `pairs` lists the bindings of this state, each once, in some order.
    pub open spec fn listed_by(self, pairs: Seq<(K, V)>) -> bool {
        &&& pairs.len() == self.entries.len()
        &&& keys_distinct(pairs)
        &&& forall|i: int|
            0 <= i < pairs.len() ==> self.contents().contains_pair(
                (#[trigger] pairs[i]).0,
                pairs[i].1,
            )
    }

    /// The state after the pairs are put one after the other, the first pair first.
    pub open spec fn put_all(self, pairs: Seq<(K, V)>) -> Self
        decreases pairs.len(),
    {
        if pairs.len() == 0 {
            self
        } else {
            self.put_all(pairs.drop_last()).put(pairs.last().0, pairs.last().1)
        }
    }

    /// In a state with unique keys, the position of a key is the index it is found at.
    pub proof fn lemma_position(self, i: int)
        requires
            self.distinct_keys(),
            0 <= i < self.entries.len(),
        ensures
            self.contains(self.entries[i].0),
            self.position(self.entries[i].0) == i,
    {
    }

    /// With unique keys, the mapping has one binding for each entry.
    pub proof fn lemma_contents(self)
        requires
            self.distinct_keys(),
        ensures
            self.contents().dom().finite(),
            self.contents().len() == self.len(),
            forall|i: int|
                0 <= i < self.entries.len() ==> self.contents().contains_pair(
                    (#[trigger] self.entries[i]).0,
                    self.entries[i].1,
                ),
    {
        let keys = self.entries.map_values(|e: (K, V)| e.0);
        keys.unique_seq_to_set();
        assert forall|k: K| self.contains(k) implies keys.contains(k) by {
            assert(keys[self.position(k)] == k);
        }
        assert(self.contents().dom() =~= keys.to_set());
    }

    /// Taking one entry out keeps the keys unique and removes its key from the mapping.
    pub proof fn lemma_remove_entry(self, i: int)
        requires
            self.distinct_keys(),
            0 <= i < self.entries.len(),
        ensures
            ({
                let rest = LruState { capacity: self.capacity, entries: self.entries.remove(i) };
                &&& rest.distinct_keys()
                &&& !rest.contains(self.entries[i].0)
                &&& rest.contents() == self.contents().remove(self.entries[i].0)
            }),
    {
        let rest = LruState { capacity: self.capacity, entries: self.entries.remove(i) };
        assert forall|k: K| self.contains(k) && k != self.entries[i].0 implies rest.contains(k) by {
            let at = self.position(k);
            assert(rest.entries[if at < i { at } else { at - 1 }] == self.entries[at]);
        }
    }

    /// A new key in front keeps the keys unique and adds its binding to the mapping.
    pub proof fn lemma_push_front(self, key: K, value: V)
        requires
            self.distinct_keys(),
            !self.contains(key),
        ensures
            ({
                let grown = LruState {
                    capacity: self.capacity,
                    entries: seq![(key, value)] + self.entries,
                };
                &&& grown.distinct_keys()
                &&& grown.contents() == self.contents().insert(key, value)
            }),
    {
        let grown = LruState { capacity: self.capacity, entries: seq![(key, value)] + self.entries };
        assert(grown.entries[0].0 == key);
        assert forall|k: K| self.contains(k) implies grown.contains(k) by {
            assert(grown.entries[self.position(k) + 1] == self.entries[self.position(k)]);
        }
    }
}

} // verus!
