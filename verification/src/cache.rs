//! The cache itself: a hash map from keys to values, threaded by a doubly linked
//! recency list whose links are keys resolved through the same map.
use crate::model::LruState;
use std::collections::hash_map::Entry;
use std::collections::HashMap;
use std::hash::Hash;
use vstd::prelude::*;
use vstd::std_specs::hash::obeys_key_model;
use vstd::std_specs::iter::IteratorSpec;

verus! {

/// What the cache expects of its key type: hashing and equality that agree with
/// mathematical equality, and a `clone` that returns its argument. The integer types
/// meet this. Every contract of the cache rests on it, through the invariant.
pub open spec fn key_model<K: Clone>() -> bool {
    &&& obeys_key_model::<K>()
    &&& forall|a: K, b: K| #[trigger] call_ensures(K::clone, (&a,), b) ==> a == b
}

/// A key-value store of bounded size that chooses by itself which binding to give up
/// when a new one does not fit. The contract leaves the choice open, so that stores
/// with other eviction policies can meet it.
pub trait LRUCache<K, V> {
    /// The invariant of the store, which every operation expects and preserves.
    spec fn valid(&self) -> bool;

    /// The largest number of bindings the store holds.
    spec fn limit(&self) -> nat;

    /// The bindings the store holds.
    spec fn contents(&self) -> Map<K, V>;

    /// Binds `key` to `value`. Unless the limit is zero the binding is there afterwards.
    /// Every other binding is either as it was or gone, and none goes while there is
    /// room or when `key` was bound before.
    fn put(&mut self, key: K, value: V)
        requires
            old(self).valid(),
        ensures
            final(self).valid(),
            final(self).limit() == old(self).limit(),
            final(self).contents().dom().finite(),
            final(self).contents().len() <= final(self).limit(),
            final(self).limit() > 0 ==> final(self).contents().contains_pair(key, value),
            final(self).contents().submap_of(old(self).contents().insert(key, value)),
            final(self).limit() > 0 && (old(self).contents().contains_key(key) || old(
                self,
            ).contents().len() < old(self).limit()) ==> final(self).contents() == old(
                self,
            ).contents().insert(key, value),
    ;

    /// Returns the value bound to `key`, if any. No binding changes.
    fn get(&mut self, key: &K) -> (found: Option<&V>)
        requires
            old(self).valid(),
        ensures
            final(self).valid(),
            final(self).limit() == old(self).limit(),
            final(self).contents() == old(self).contents(),
            found == (if old(self).contents().contains_key(*key) {
                Some(&old(self).contents()[*key])
            } else {
                None
            }),
    ;
}

/// The neighbours of an entry in the recency list, each named by its key.
struct Node<K> {
    /// The entry used just after this one, nearer the head.
    prev: Option<K>,
    /// The entry used just before this one, nearer the tail.
    next: Option<K>,
}

/// What the table stores under a key: the value and the links of its entry.
type Slot<K, V> = (V, Node<K>);

/// The key that precedes position `i` of `order`, if any.
spec fn before<K>(order: Seq<K>, i: int) -> Option<K> {
    if i > 0 {
        Some(order[i - 1])
    } else {
        None
    }
}

/// The key that follows position `i` of `order`, if any.
spec fn after<K>(order: Seq<K>, i: int) -> Option<K> {
    if i + 1 < order.len() {
        Some(order[i + 1])
    } else {
        None
    }
}

/// The entry of the key at position `i` of `order` exists and names its two neighbours.
spec fn linked_at<K, V>(table: Map<K, Slot<K, V>>, order: Seq<K>, i: int) -> bool {
    &&& table.contains_key(order[i])
    &&& table[order[i]].1.prev == before(order, i)
    &&& table[order[i]].1.next == after(order, i)
}

/// The links stored in `table` form exactly the chain `order`, from `head` to `tail`:
/// every key of `order` once, no cycle, and no link that leads out of it.
spec fn chained<K, V>(
    table: Map<K, Slot<K, V>>,
    head: Option<K>,
    tail: Option<K>,
    order: Seq<K>,
) -> bool {
    &&& order.no_duplicates()
    &&& head == (if order.len() > 0 {
        Some(order.first())
    } else {
        None
    })
    &&& tail == (if order.len() > 0 {
        Some(order.last())
    } else {
        None
    })
    &&& forall|i: int| 0 <= i < order.len() ==> #[trigger] linked_at(table, order, i)
}

/// The entries that `table` holds for the keys of `order`, in that order.
spec fn listing<K, V>(table: Map<K, Slot<K, V>>, order: Seq<K>) -> Seq<(K, V)> {
    order.map_values(|k: K| (k, table[k].0))
}

/// A chain and its entries depend only on what the table stores under the keys of
/// the chain.
proof fn lemma_frame<K, V>(
    table: Map<K, Slot<K, V>>,
    other: Map<K, Slot<K, V>>,
    head: Option<K>,
    tail: Option<K>,
    order: Seq<K>,
)
    requires
        chained(table, head, tail, order),
        forall|i: int|
            0 <= i < order.len() ==> other.contains_key(#[trigger] order[i]) && other[order[i]]
                == table[order[i]],
    ensures
        chained(other, head, tail, order),
        listing(other, order) == listing(table, order),
{
    assert forall|i: int| 0 <= i < order.len() implies #[trigger] linked_at(other, order, i) by {
        assert(linked_at(table, order, i));
    }
}

/// The links of the entry of `key`, for update in place. The value of the entry and
/// every other entry stay as they are.
fn node_mut<'a, K: Eq + Hash + Clone, V>(map: &'a mut HashMap<K, Slot<K, V>>, key: &K) -> (node:
    &'a mut Node<K>)
    requires
        key_model::<K>(),
        old(map)@.contains_key(*key),
    ensures
        *node == old(map)@[*key].1,
        final(map)@ == old(map)@.insert(*key, (old(map)@[*key].0, *final(node))),
{
    match map.entry(key.clone()) {
        Entry::Occupied(slot) => &mut slot.into_mut().1,
        Entry::Vacant(_) => unreached(),
    }
}

/// A cache that holds at most `capacity` entries and evicts the least recently used.
///
/// The entries live in one table. The recency list is threaded through them by keys:
/// an entry names its neighbours, and a neighbour is found by looking its key up.
pub struct Cache<K: Eq + Hash + Clone, V> {
    capacity: usize,
    map: HashMap<K, Slot<K, V>>,
    /// The most recently used key.
    head: Option<K>,
    /// The least recently used key.
    tail: Option<K>,
    /// The keys in recency order, most recent first.
    order: Ghost<Seq<K>>,
}

impl<K: Eq + Hash + Clone, V> View for Cache<K, V> {
    type V = LruState<K, V>;

    closed spec fn view(&self) -> LruState<K, V> {
        LruState { capacity: self.capacity as nat, entries: listing(self.map@, self.order@) }
    }
}

impl<K: Eq + Hash + Clone, V> Cache<K, V> {
    /// The recency list is intact and runs through every key of the table but
    /// `loose`, whose entry is in the table and outside the list.
    spec fn linked(&self, loose: Option<K>) -> bool {
        &&& key_model::<K>()
        &&& chained(self.map@, self.head, self.tail, self.order@)
        &&& forall|k: K|
            #![trigger self.map@.contains_key(k)]
            #![trigger self.order@.contains(k)]
            self.map@.contains_key(k) <==> self.order@.contains(k) || loose == Some(k)
        &&& loose matches Some(k) ==> !self.order@.contains(k)
    }

    /// The recency list is intact and runs through every key of the table.
    pub closed spec fn well_linked(&self) -> bool {
        self.linked(None)
    }

    /// The invariant of the cache, which every operation expects and preserves.
    pub open spec fn wf(&self) -> bool {
        &&& self.well_linked()
        &&& self@.wf()
    }

    /// The value that the table holds under `key`.
    spec fn value_of(&self, key: K) -> V {
        self.map@[key].0
    }

    /// The abstract state has the keys of the recency list, in its order.
    proof fn lemma_view(&self)
        requires
            self.order@.no_duplicates(),
        ensures
            self@.entries.len() == self.order@.len(),
            self@.distinct_keys(),
            forall|k: K|
                #![trigger self@.contains(k)]
                #![trigger self.order@.contains(k)]
                self@.contains(k) <==> self.order@.contains(k),
            forall|k: K|
                self.order@.contains(k) ==> #[trigger] self@.position(k) == self.order@.index_of(
                    k,
                ),
    {
        assert forall|k: K| self.order@.contains(k) implies self@.contains(k) by {
            assert(self@.entries[self.order@.index_of(k)].0 == k);
        }
    }

    /// The table holds as many entries as the recency list has keys.
    proof fn lemma_size(&self)
        requires
            self.linked(None),
        ensures
            self.map@.dom().finite(),
            self.map@.len() == self@.len(),
    {
        self.order@.unique_seq_to_set();
        assert(self.map@.dom() =~= self.order@.to_set());
    }

    /// Takes the entry of `key` out of the recency list, joining its two neighbours.
    /// The entry itself stays in the table.
    fn remove_node(&mut self, key: &K)
        requires
            old(self).linked(None),
            old(self).map@.contains_key(*key),
        ensures
            final(self).linked(Some(*key)),
            final(self)@.capacity == old(self)@.capacity,
            final(self)@.entries == old(self)@.without(*key),
            final(self).value_of(*key) == old(self).value_of(*key),
    {
        let ghost order = self.order@;
        let ghost at = order.index_of(*key);
        let ghost table = self.map@;
        proof {
            self.lemma_view();
            assert(linked_at(table, order, at));
        }
        let node = self.map.get(key).unwrap();
        let prev = node.1.prev.clone();
        let next = node.1.next.clone();
        match &prev {
            Some(prev_key) => {
                node_mut(&mut self.map, prev_key).next = next.clone();
            },
            None => {
                self.head = next.clone();
            },
        }
        match &next {
            Some(next_key) => {
                node_mut(&mut self.map, next_key).prev = prev.clone();
            },
            None => {
                self.tail = prev.clone();
            },
        }
        self.order = Ghost(order.remove(at));
        proof {
            let rest = order.remove(at);
            let shift = |i: int| if i < at { i } else { i + 1 };
            assert forall|i: int| 0 <= i < rest.len() implies #[trigger] linked_at(
                self.map@,
                rest,
                i,
            ) by {
                assert(linked_at(table, order, shift(i)));
            }
            assert forall|k: K| order.contains(k) && k != *key implies rest.contains(k) by {
                let i = order.index_of(k);
                assert(rest[if i < at { i } else { i - 1 }] == k);
            }
            assert forall|i: int| 0 <= i < rest.len() implies self@.entries[i] == old(
                self,
            )@.entries[shift(i)] by {}
        }
    }

    /// Puts the entry of `key`, which is in the table but not in the recency list, at
    /// the head of the list.
    fn add_to_head(&mut self, key: K)
        requires
            old(self).linked(Some(key)),
        ensures
            final(self).linked(None),
            final(self)@.capacity == old(self)@.capacity,
            final(self)@.entries == seq![(key, old(self).value_of(key))] + old(self)@.entries,
    {
        let ghost order = self.order@;
        let ghost table = self.map@;
        let node = node_mut(&mut self.map, &key);
        node.prev = None;
        node.next = self.head.clone();
        match &self.head {
            Some(old_head_key) => {
                node_mut(&mut self.map, old_head_key).prev = Some(key.clone());
            },
            None => {},
        }
        self.head = Some(key.clone());
        if self.tail.is_none() {
            self.tail = Some(key);
        }
        self.order = Ghost(seq![key] + order);
        proof {
            let grown = seq![key] + order;
            assert forall|i: int| 0 <= i < grown.len() implies #[trigger] linked_at(
                self.map@,
                grown,
                i,
            ) by {
                if i > 0 {
                    assert(linked_at(table, order, i - 1));
                }
            }
            assert(grown[0] == key);
            assert forall|k: K| order.contains(k) implies grown.contains(k) by {
                assert(grown[order.index_of(k) + 1] == k);
            }
            assert forall|i: int| 0 < i < grown.len() implies self@.entries[i] == old(
                self,
            )@.entries[i - 1] by {}
        }
    }

    /// Makes the entry of `key` the most recently used one.
    fn move_to_head(&mut self, key: &K)
        requires
            old(self).wf(),
            old(self)@.contains(*key),
        ensures
            final(self).wf(),
            final(self)@ == old(self)@.touch(*key),
    {
        self.remove_node(key);
        self.add_to_head(key.clone());
    }

    /// Evicts the least recently used entry, if there is one.
    fn remove_tail(&mut self)
        requires
            old(self).wf(),
        ensures
            final(self).wf(),
            final(self)@.capacity == old(self)@.capacity,
            final(self)@.entries == (if old(self)@.len() > 0 {
                old(self)@.entries.drop_last()
            } else {
                old(self)@.entries
            }),
    {
        proof {
            self.lemma_view();
        }
        match self.tail.clone() {
            Some(tail_key) => {
                self.remove_node(&tail_key);
                let ghost unlinked = self.map@;
                self.map.remove(&tail_key);
                proof {
                    lemma_frame(unlinked, self.map@, self.head, self.tail, self.order@);
                }
            },
            None => {},
        }
    }

    /// The bindings of the cache, each once, in an order that is not fixed.
    pub fn entries(&self) -> (list: Vec<(&K, &V)>)
        requires
            self.wf(),
        ensures
            self@.listed_by(list@.unref()),
    {
        let mut list: Vec<(&K, &V)> = Vec::new();
        for (key, entry) in it: self.map.iter()
            invariant
                key_model::<K>(),
                list@.len() == it.index(),
                forall|i: int|
                    0 <= i < list@.len() ==> *(#[trigger] list@[i]).0 == *it.seq()[i].0
                        && *list@[i].1 == (*it.seq()[i].1).0,
        {
            list.push((key, &entry.0));
        }
        proof {
            let walk = self.map.iter().remaining();
            let pairs = list@.unref();
            self.lemma_view();
            self.lemma_size();
            assert forall|i: int, j: int| 0 <= i < j < pairs.len() implies pairs[i].0
                != pairs[j].0 by {
                assert(self.map@[*walk[i].0] == *walk[i].1);
            }
            assert forall|i: int| 0 <= i < pairs.len() implies self@.contents().contains_pair(
                (#[trigger] pairs[i]).0,
                pairs[i].1,
            ) by {}
        }
        list
    }

    /// Creates an empty cache that holds at most `capacity` entries. With capacity
    /// zero the cache stays empty whatever is put.
    pub fn new(capacity: usize) -> (cache: Self)
        requires
            key_model::<K>(),
        ensures
            cache.wf(),
            cache@ == LruState::<K, V>::empty(capacity as nat),
    {
        let cache = Cache {
            capacity,
            map: HashMap::new(),
            head: None,
            tail: None,
            order: Ghost(Seq::empty()),
        };
        assert(cache@.entries =~= Seq::empty());
        cache
    }
}

impl<K: Eq + Hash + Clone, V> LRUCache<K, V> for Cache<K, V> {
    open spec fn valid(&self) -> bool {
        self.wf()
    }

    open spec fn limit(&self) -> nat {
        self@.capacity
    }

    open spec fn contents(&self) -> Map<K, V> {
        self@.contents()
    }

    /// Binds `key` to `value` and makes it the most recently used entry. If the key is
    /// new and the cache is full, the least recently used entry is evicted first. A
    /// cache of capacity zero stores nothing.
    fn put(&mut self, key: K, value: V)
        ensures
            final(self)@ == old(self)@.put(key, value),
            final(self)@.len() <= final(self)@.capacity,
            old(self)@.contains(key) ==> final(self)@.len() == old(self)@.len(),
            old(self)@.capacity > 0 ==> final(self)@.mru_key() == key && final(self)@.lookup(key)
                == Some(value),
    {
        proof {
            self.lemma_view();
            self.lemma_size();
            self@.lemma_put(key, value);
            self@.lemma_put_contents(key, value);
            self@.lemma_contents();
        }
        if self.capacity == 0 {
            return ;
        }
        if self.map.contains_key(&key) {
            self.remove_node(&key);
        } else {
            if self.map.len() == self.capacity {
                self.remove_tail();
            }
            proof {
                self.lemma_view();
            }
        }
        let ghost unlinked = self.map@;
        self.map.insert(key.clone(), (value, Node { prev: None, next: None }));
        proof {
            lemma_frame(unlinked, self.map@, self.head, self.tail, self.order@);
        }
        self.add_to_head(key);
    }

    /// Returns the value bound to `key`, if there is one, and makes that entry the
    /// most recently used. A miss changes nothing.
    fn get(&mut self, key: &K) -> (found: Option<&V>)
        ensures
            final(self)@ == old(self)@.touch(*key),
            found == (match old(self)@.lookup(*key) {
                Some(value) => Some(&value),
                None => None,
            }),
            old(self)@.contains(*key) ==> final(self)@.mru_key() == *key,
            !old(self)@.contains(*key) ==> found is None && final(self)@ == old(self)@,
    {
        proof {
            self.lemma_view();
            self@.lemma_touch(*key);
        }
        if !self.map.contains_key(key) {
            return None;
        }
        self.move_to_head(key);
        Some(&self.map.get(key).unwrap().0)
    }
}

} // verus!
