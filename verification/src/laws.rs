//! What holds of every cache: the capacity bound, which entry an eviction takes,
//! what a read and an overwrite change, and what survives a replay of the entries.
use crate::model::{keys_distinct, reversed, truncate, LruState};
use vstd::prelude::*;

verus! {

impl<K, V> LruState<K, V> {
    /// A put keeps the state well formed and, by cases, does this to the entries: an
    /// entry that exists is replaced and moved to the front; a new entry is added in
    /// front while there is room; in a full cache the new entry takes the place of the
    /// least recently used one. With capacity zero the state does not change.
    pub proof fn lemma_put(self, key: K, value: V)
        requires
            self.wf(),
        ensures
            self.put(key, value).wf(),
            self.put(key, value).capacity == self.capacity,
            self.capacity == 0 ==> self.put(key, value) == self,
            self.contains(key) ==> self.put(key, value).entries == seq![(key, value)]
                + self.entries.remove(self.position(key)),
            !self.contains(key) && self.len() < self.capacity ==> self.put(key, value).entries
                == seq![(key, value)] + self.entries,
            !self.contains(key) && self.len() == self.capacity && self.capacity > 0 ==> self.put(
                key,
                value,
            ).entries == seq![(key, value)] + self.entries.drop_last(),
    {
        if self.capacity == 0 {
            assert(self.put(key, value).entries =~= self.entries);
        }
    }

    /// What a put does to the mapping: the new binding is there and is the most
    /// recently used; while there is room, or when the key was bound before, nothing
    /// else changes; in a full cache the least recently used binding is given up.
    pub proof fn lemma_put_contents(self, key: K, value: V)
        requires
            self.wf(),
        ensures
            self.put(key, value).contents().dom().finite(),
            self.put(key, value).contents().len() == self.put(key, value).len(),
            self.capacity > 0 ==> self.put(key, value).mru_key() == key,
            self.capacity > 0 ==> self.put(key, value).lookup(key) == Some(value),
            self.capacity > 0 && (self.contains(key) || self.len() < self.capacity) ==> self.put(
                key,
                value,
            ).contents() == self.contents().insert(key, value),
            self.capacity > 0 && !self.contains(key) && self.len() == self.capacity ==> self.put(
                key,
                value,
            ).contents() == self.contents().remove(self.lru_key()).insert(key, value),
    {
        let after = self.put(key, value);
        self.lemma_put(key, value);
        after.lemma_contents();
        if self.capacity > 0 {
            after.lemma_position(0);
            if self.contains(key) {
                let at = self.position(key);
                self.lemma_remove_entry(at);
                let rest = LruState { capacity: self.capacity, entries: self.entries.remove(at) };
                rest.lemma_push_front(key, value);
                assert(self.contents().remove(key).insert(key, value) =~= self.contents().insert(
                    key,
                    value,
                ));
            } else if self.len() < self.capacity {
                self.lemma_push_front(key, value);
            } else {
                let last = self.entries.len() - 1;
                self.lemma_remove_entry(last);
                let rest = LruState { capacity: self.capacity, entries: self.entries.remove(last) };
                if rest.contains(key) {
                    assert(rest.entries[rest.position(key)] == self.entries[rest.position(key)]);
                }
                rest.lemma_push_front(key, value);
            }
        }
    }

    /// A read keeps the state well formed and leaves the mapping as it is; a key that
    /// is present becomes the most recently used.
    pub proof fn lemma_touch(self, key: K)
        requires
            self.wf(),
        ensures
            self.touch(key).wf(),
            self.touch(key).capacity == self.capacity,
            self.touch(key).len() == self.len(),
            self.touch(key).contents() == self.contents(),
            self.contains(key) ==> self.touch(key).mru_key() == key,
    {
        if self.contains(key) {
            let at = self.position(key);
            let value = self.entries[at].1;
            self.lemma_remove_entry(at);
            let rest = LruState { capacity: self.capacity, entries: self.entries.remove(at) };
            rest.lemma_push_front(key, value);
        }
    }

    /// However many pairs are put, the cache never holds more than its capacity.
    pub proof fn capacity_bound(self, pairs: Seq<(K, V)>)
        requires
            self.wf(),
        ensures
            self.put_all(pairs).wf(),
            self.put_all(pairs).capacity == self.capacity,
            self.put_all(pairs).len() <= self.capacity,
        decreases pairs.len(),
    {
        if pairs.len() > 0 {
            self.capacity_bound(pairs.drop_last());
        }
    }

    /// A put of a new key into a full cache evicts the least recently used entry and
    /// no other: every other key keeps its value.
    pub proof fn eviction_takes_least_recent(self, key: K, value: V)
        requires
            self.wf(),
            !self.contains(key),
            self.len() == self.capacity,
            self.capacity > 0,
        ensures
            !self.put(key, value).contains(self.lru_key()),
            self.put(key, value).lookup(key) == Some(value),
            forall|k: K|
                k != self.lru_key() && k != key ==> #[trigger] self.put(key, value).lookup(k)
                    == self.lookup(k),
    {
        self.lemma_put_contents(key, value);
        let after = self.put(key, value);
        assert forall|k: K| k != self.lru_key() && k != key implies #[trigger] after.lookup(k)
            == self.lookup(k) by {
            assert(after.contents().contains_key(k) == self.contents().contains_key(k));
        }
    }

    /// A read of a present key moves it to the front and changes no binding.
    pub proof fn read_promotes(self, key: K)
        requires
            self.wf(),
            self.contains(key),
        ensures
            self.touch(key).mru_key() == key,
            self.touch(key).len() == self.len(),
            forall|k: K| #[trigger] self.touch(key).lookup(k) == self.lookup(k),
    {
        self.lemma_touch(key);
        assert forall|k: K| #[trigger] self.touch(key).lookup(k) == self.lookup(k) by {
            assert(self.touch(key).contents().contains_key(k) == self.contents().contains_key(k));
        }
    }

    /// A second read of the same key, right after the first, finds the same value and
    /// changes nothing more: the key stays in front.
    pub proof fn repeated_read(self, key: K)
        requires
            self.wf(),
        ensures
            self.touch(key).lookup(key) == self.lookup(key),
            self.touch(key).touch(key) == self.touch(key),
    {
        if self.contains(key) {
            let read = self.touch(key);
            self.lemma_touch(key);
            assert(read.touch(key).entries =~= read.entries);
        }
    }

    /// A key that was just read survives the next put of another key, whenever the
    /// cache has room for two entries.
    pub proof fn read_protects(self, key: K, other: K, value: V)
        requires
            self.wf(),
            self.contains(key),
            other != key,
            self.capacity >= 2,
        ensures
            self.touch(key).put(other, value).lookup(key) == self.lookup(key),
    {
        self.read_promotes(key);
        let read = self.touch(key);
        read.lemma_put_contents(other, value);
        assert(read.put(other, value).contents().contains_key(key));
    }

    /// A read of an absent key finds nothing and leaves the state as it is.
    pub proof fn miss_changes_nothing(self, key: K)
        requires
            !self.contains(key),
        ensures
            self.lookup(key) is None,
            self.touch(key) == self,
    {
    }

    /// A put on a key that is present replaces its value and moves it to the front;
    /// the number of entries and every other binding stay as they were.
    pub proof fn overwrite_keeps_size(self, key: K, value: V)
        requires
            self.wf(),
            self.contains(key),
        ensures
            self.put(key, value).len() == self.len(),
            self.put(key, value).mru_key() == key,
            self.put(key, value).lookup(key) == Some(value),
            self.put(key, value).contents() == self.contents().insert(key, value),
    {
        self.lemma_put_contents(key, value);
    }

    /// Pairs with distinct keys, put into an empty cache, end up in reverse order, the
    /// last one in front, cut to the capacity.
    pub proof fn lemma_fill(capacity: nat, pairs: Seq<(K, V)>)
        requires
            keys_distinct(pairs),
        ensures
            Self::empty(capacity).put_all(pairs).entries == truncate(reversed(pairs), capacity),
        decreases pairs.len(),
    {
        if pairs.len() > 0 {
            let front = pairs.drop_last();
            Self::lemma_fill(capacity, front);
            Self::empty(capacity).capacity_bound(front);
            let partial = Self::empty(capacity).put_all(front);
            assert(!partial.contains(pairs.last().0));
            let pushed = seq![pairs.last()] + partial.entries;
            assert forall|i: int| 0 <= i < pushed.len() implies pushed[i] == reversed(pairs)[i] by {}
        }
    }

    /// Putting one more distinct key than the cache holds into an empty cache evicts
    /// exactly the first key put: it is gone, and every later key has its value.
    pub proof fn overflow_evicts_first(capacity: nat, pairs: Seq<(K, V)>)
        requires
            keys_distinct(pairs),
            pairs.len() == capacity + 1,
        ensures
            !Self::empty(capacity).put_all(pairs).contains(pairs[0].0),
            forall|i: int|
                1 <= i <= capacity ==> Self::empty(capacity).put_all(pairs).lookup(
                    (#[trigger] pairs[i]).0,
                ) == Some(pairs[i].1),
    {
        let filled = Self::empty(capacity).put_all(pairs);
        Self::lemma_fill(capacity, pairs);
        assert forall|a: int| 0 <= a < capacity implies #[trigger] filled.entries[a]
            == pairs[capacity - a] by {}
        assert(!filled.contains(pairs[0].0));
        assert forall|i: int| 1 <= i <= capacity implies filled.lookup((#[trigger] pairs[i]).0)
            == Some(pairs[i].1) by {
            assert(filled.entries[capacity - i] == pairs[i]);
        }
    }

    /// If the bindings of a cache are listed in any order and put into an empty cache
    /// of the same capacity, that cache binds every key to the value it had. The
    /// recency order may differ.
    pub proof fn replay_restores_contents(self, pairs: Seq<(K, V)>)
        requires
            self.wf(),
            self.listed_by(pairs),
        ensures
            Self::empty(self.capacity).put_all(pairs).wf(),
            Self::empty(self.capacity).put_all(pairs).contents() == self.contents(),
            forall|k: K| #[trigger]
                Self::empty(self.capacity).put_all(pairs).lookup(k) == self.lookup(k),
    {
        let replayed = Self::empty(self.capacity).put_all(pairs);
        Self::lemma_fill(self.capacity, pairs);
        assert forall|a: int| 0 <= a < pairs.len() implies #[trigger] replayed.entries[a]
            == pairs[pairs.len() - 1 - a] by {}
        replayed.lemma_contents();
        self.lemma_contents();
        assert forall|k: K| #[trigger]
            replayed.contents().dom().contains(k) implies self.contents().dom().contains(k)
            && replayed.contents()[k] == self.contents()[k] by {}
        vstd::set_lib::lemma_subset_equality(replayed.contents().dom(), self.contents().dom());
        assert forall|k: K| #[trigger] replayed.lookup(k) == self.lookup(k) by {
            assert(replayed.contents().contains_key(k) == self.contents().contains_key(k));
        }
    }
}

} // verus!
