use crate::cache_status::CacheStatus;
use crate::lru_state::LruState;
use crate::recency_list::{Node, RecencyList};
use std::collections::HashMap;
use std::hash::Hash;
use vstd::prelude::*;
use vstd::std_specs::hash::*;

verus! {

/// Whether `K` can key a cache: its values hash and compare as a hash table
/// expects, and a clone of a key is that key.
pub open spec fn obeys_cache_key_model<K: Clone>() -> bool {
    &&& obeys_key_model::<K>()
    &&& forall|a: K, b: K| #[trigger] cloned::<K>(a, b) ==> a == b
}

/// A cache that holds at most `capacity` entries and, when it is full,
/// makes room by dropping the entry that was used least recently.
///
/// An index from keys to handles finds an entry; the recency list owns the
/// entries and their order. A lookup that hits is a use: it moves the entry
/// to the front of the order.
pub struct LruCache<K, V> {
    map: HashMap<K, usize>,
    list: RecencyList<K, V>,
    capacity: usize,
    stats: CacheStatus,
}

impl<K, V> View for LruCache<K, V> {
    type V = LruState<K, V>;

    closed spec fn view(&self) -> LruState<K, V> {
        LruState {
            entries: self.list@,
            capacity: self.capacity as nat,
            hits: self.stats.hits() as nat,
            misses: self.stats.misses() as nat,
        }
    }
}

impl<K: Eq + Hash + Clone, V> LruCache<K, V> {
    /// The index: the handle under which each key's entry is stored.
    pub closed spec fn index(&self) -> Map<K, usize> {
        self.map@
    }

    /// The handles of the entries in the recency list, most recently used
    /// first.
    pub closed spec fn handles(&self) -> Seq<usize> {
        self.list.handles()
    }

    /// The index and the recency list describe the same entries: position
    /// by position the index maps the entry's key to the entry's handle,
    /// and every key of the index is the key of the entry it leads to.
    pub closed spec fn wf(&self) -> bool {
        let handles = self.list.handles();
        &&& obeys_cache_key_model::<K>()
        &&& self.list.wf()
        &&& 1 <= self.capacity
        &&& handles.len() <= self.capacity
        &&& self.map@.len() == handles.len()
        &&& forall|j: int|
            0 <= j < handles.len() ==> {
                let key = self.list.entry(#[trigger] handles[j]).0;
                self.map@.contains_key(key) && self.map@[key] == handles[j]
            }
        &&& forall|key: K| #[trigger]
            self.map@.contains_key(key) ==> handles.contains(self.map@[key]) && self.list.entry(
                self.map@[key],
            ).0 == key
    }

    /// An empty cache for at most `capacity` entries.
    pub fn new(capacity: usize) -> (cache: LruCache<K, V>)
        requires
            capacity >= 1,
            obeys_cache_key_model::<K>(),
        ensures
            cache.wf(),
            cache@ == LruState::<K, V>::empty(capacity as nat),
    {
        let cache = LruCache {
            map: HashMap::new(),
            list: RecencyList::new(),
            capacity,
            stats: CacheStatus::new(),
        };
        proof {
            cache.list.lemma_handles();
            assert(cache@.entries =~= Seq::<(K, V)>::empty());
        }
        cache
    }

    pub fn capacity(&self) -> (capacity: usize)
        ensures
            capacity == self@.capacity,
    {
        self.capacity
    }

    /// The keys that the index knows.
    pub open spec fn indexed_keys(&self) -> Set<K> {
        self.index().dom()
    }

    /// The keys of the entries that the recency list holds.
    pub open spec fn listed_keys(&self) -> Set<K> {
        self@.keys().to_set()
    }

    /// The index and the recency list hold the same keys, each once: a key
    /// is in the index exactly when an entry of the list carries it, and
    /// there are as many keys in the index as entries in the list.
    pub proof fn lemma_index_matches_list(&self)
        requires
            self.wf(),
        ensures
            self.indexed_keys() == self.listed_keys(),
            self.indexed_keys().finite(),
            self.indexed_keys().len() == self@.len(),
            self@.keys().no_duplicates(),
    {
        self.lemma_wf();
        assert forall|key: K| self.indexed_keys().contains(key) <==> self.listed_keys().contains(
            key,
        ) by {
            if self.listed_keys().contains(key) {
                let j = self@.keys().index_of(key);
                assert(0 <= j < self@.len() && self@.keys()[j] == key);
            }
        }
        assert(self.indexed_keys() =~= self.listed_keys());
    }

    /// What well-formedness says of the state: the keys are distinct and
    /// stand in the index, and the entries fit the capacity.
    pub proof fn lemma_wf(&self)
        requires
            self.wf(),
        ensures
            self@.inv(),
            self@.len() == self.handles().len(),
            self.index().len() == self@.len(),
            forall|j: int|
                0 <= j < self@.len() ==> self.index().contains_key(#[trigger] self@.keys()[j])
                    && self.index()[self@.keys()[j]] == self.handles()[j],
            forall|key: K| #[trigger]
                self.index().contains_key(key) ==> self@.contains_key(key) && self.handles()[self@.position(
                    key,
                )] == self.index()[key],
    {
        let handles = self.list.handles();
        let keys = self@.keys();
        self.list.lemma_handles();
        assert forall|j: int| 0 <= j < keys.len() implies self.map@.contains_key(#[trigger] keys[j])
            && self.map@[keys[j]] == handles[j] by {
            assert(keys[j] == self.list.entry(handles[j]).0);
        }
        assert forall|i: int, j: int| 0 <= i < keys.len() && 0 <= j < keys.len() && i != j implies keys[i]
            != keys[j] by {
            assert(self.map@[keys[i]] == handles[i]);
            assert(self.map@[keys[j]] == handles[j]);
        }
        assert forall|key: K| #[trigger] self.map@.contains_key(key) implies self@.contains_key(key)
            && handles[self@.position(key)] == self.map@[key] by {
            let h = self.map@[key];
            let j = handles.index_of(h);
            assert(0 <= j < handles.len() && handles[j] == h);
            assert(keys[j] == key);
            let at = keys.index_of(key);
            assert(0 <= at < keys.len() && keys[at] == key);
        }
    }

    /// The handle under which `key` is stored, if it is stored.
    fn find(&self, key: &K) -> (found: Option<usize>)
        requires
            self.wf(),
        ensures
            match found {
                Some(h) => {
                    &&& self@.contains_key(*key)
                    &&& self.list.handles()[self@.position(*key)] == h
                    &&& self.map@.contains_key(*key)
                    &&& self.map@[*key] == h
                },
                None => !self@.contains_key(*key) && !self.map@.contains_key(*key),
            },
    {
        proof {
            self.lemma_wf();
        }
        match self.map.get(key) {
            Some(h) => Some(*h),
            None => {
                proof {
                    if self@.contains_key(*key) {
                        let j = self@.keys().index_of(*key);
                        assert(0 <= j < self@.len() && self@.keys()[j] == *key);
                    }
                }
                None
            },
        }
    }

    /// Looks `key` up. A hit is counted, makes the entry the most recently
    /// used one, and returns a clone of its value; a miss is counted and
    /// changes nothing else.
    pub fn get(&mut self, key: &K) -> (found: Option<V>) where V: Clone
        requires
            old(self).wf(),
            old(self)@.contains_key(*key) ==> old(self)@.hits < usize::MAX,
            !old(self)@.contains_key(*key) ==> old(self)@.misses < usize::MAX,
        ensures
            final(self).wf(),
            final(self)@ == old(self)@.get(*key),
            match found {
                Some(value) => old(self)@.contains_key(*key) && cloned(
                    old(self)@.value_of(*key),
                    value,
                ),
                None => !old(self)@.contains_key(*key),
            },
    {
        proof {
            self.lemma_wf();
            self.list.lemma_handles();
        }
        match self.find(key) {
            Some(h) => {
                let value = self.list.get(h).value().clone();
                self.stats.hit();
                self.move_to_head(h);
                Some(value)
            },
            None => {
                self.stats.miss();
                None
            },
        }
    }

    /// Makes the entry under `h` the most recently used one.
    fn move_to_head(&mut self, h: usize)
        requires
            old(self).wf(),
            old(self).list.handles().contains(h),
        ensures
            final(self).wf(),
            final(self).map == old(self).map,
            final(self).capacity == old(self).capacity,
            final(self).stats == old(self).stats,
            final(self).list.handles() == seq![h] + old(self).list.handles().remove(
                old(self).list.handles().index_of(h),
            ),
            final(self).list@ == seq![old(self).list.entry(h)] + old(self).list@.remove(
                old(self).list.handles().index_of(h),
            ),
    {
        let ghost handles = self.list.handles();
        let ghost at = handles.index_of(h);
        proof {
            self.list.lemma_handles();
        }
        self.list.move_to_front(h);
        proof {
            let moved = self.list.handles();
            self.list.lemma_handles();
            assert forall|j: int| 0 <= j < moved.len() implies {
                let key = self.list.entry(#[trigger] moved[j]).0;
                self.map@.contains_key(key) && self.map@[key] == moved[j]
            } by {
                let was: int = if j == 0 {
                    at
                } else if j - 1 < at {
                    j - 1
                } else {
                    j
                };
                assert(moved[j] == handles[was]);
                assert(old(self).list.holds(handles[was]));
            }
            assert forall|key: K| #[trigger] self.map@.contains_key(key) implies moved.contains(
                self.map@[key],
            ) && self.list.entry(self.map@[key]).0 == key by {
                let was = handles.index_of(self.map@[key]);
                assert(0 <= was < handles.len() && handles[was] == self.map@[key]);
                assert(old(self).list.holds(handles[was]));
                let now: int = if was == at {
                    0
                } else if was < at {
                    was + 1
                } else {
                    was
                };
                assert(moved[now] == handles[was]);
            }
            assert forall|j: int| 0 <= j < moved.len() implies self.list@[j] == (seq![
                old(self).list.entry(h),
            ] + old(self).list@.remove(at))[j] by {
                let was: int = if j == 0 {
                    at
                } else if j - 1 < at {
                    j - 1
                } else {
                    j
                };
                assert(moved[j] == handles[was]);
                assert(old(self).list.holds(handles[was]));
            }
            assert(self.list@ =~= seq![old(self).list.entry(h)] + old(self).list@.remove(at));
        }
    }

    /// Drops the least recently used entry, if there is one, from the
    /// recency list and from the index, and hands it out.
    fn remove_tail(&mut self) -> (evicted: Option<Node<K, V>>)
        requires
            old(self).wf(),
        ensures
            final(self).wf(),
            final(self)@ == old(self)@.remove_lru(),
            match evicted {
                Some(node) => old(self)@.len() > 0 && node.entry() == old(self)@.entries.last(),
                None => old(self)@.len() == 0,
            },
    {
        let ghost handles = self.list.handles();
        proof {
            self.lemma_wf();
            self.list.lemma_handles();
        }
        match self.list.pop_back() {
            Some(node) => {
                self.map.remove(node.key());
                proof {
                    let rest = self.list.handles();
                    let last = handles.last();
                    let gone = node.entry().0;
                    self.list.lemma_handles();
                    assert(old(self)@.keys()[handles.len() - 1] == gone);
                    assert forall|j: int| 0 <= j < rest.len() implies {
                        let key = self.list.entry(#[trigger] rest[j]).0;
                        self.map@.contains_key(key) && self.map@[key] == rest[j]
                    } by {
                        assert(rest[j] == handles[j]);
                        assert(old(self).list.holds(handles[j]));
                        assert(old(self)@.keys()[j] == old(self).list.entry(handles[j]).0);
                    }
                    assert forall|key: K| #[trigger] self.map@.contains_key(key) implies rest.contains(
                        self.map@[key],
                    ) && self.list.entry(self.map@[key]).0 == key by {
                        let was = handles.index_of(self.map@[key]);
                        assert(0 <= was < handles.len() && handles[was] == self.map@[key]);
                        assert(old(self).list.holds(handles[was]));
                        assert(rest[was] == handles[was]);
                    }
                    assert forall|j: int| 0 <= j < rest.len() implies self.list@[j] == old(
                        self,
                    ).list@.drop_last()[j] by {
                        assert(rest[j] == handles[j]);
                        assert(old(self).list.holds(handles[j]));
                    }
                    assert(self.list@ =~= old(self).list@.drop_last());
                }
                Some(node)
            },
            None => None,
        }
    }

    /// Drops the least recently used entry; does nothing on an empty cache.
    pub fn remove_lru(&mut self)
        requires
            old(self).wf(),
        ensures
            final(self).wf(),
            final(self)@ == old(self)@.remove_lru(),
    {
        let _ = self.remove_tail();
    }

    /// Stores `value` under `key`. A key that is already stored keeps its
    /// entry, which takes the new value and becomes the most recently used
    /// one. A new key gets a new entry at the front; where the cache is
    /// full, the least recently used entry is dropped first.
    pub fn put(&mut self, key: K, value: V)
        requires
            old(self).wf(),
        ensures
            final(self).wf(),
            final(self)@ == old(self)@.put(key, value),
    {
        proof {
            self.lemma_wf();
            self.list.lemma_handles();
        }
        if let Some(h) = self.find(&key) {
            let ghost at = self@.position(key);
            assert(self.list.handles().index_of(h) == at);
            self.overwrite(h, value);
            self.move_to_head(h);
            proof {
                let entries = old(self).list@;
                assert(entries.update(at, (key, value)).remove(at) =~= entries.remove(at));
            }
            return ;
        }
        if self.map.len() >= self.capacity {
            let _ = self.remove_tail();
        }
        let ghost before = *self;
        proof {
            self.lemma_wf();
            self.list.lemma_handles();
            assert(!self.map@.contains_key(key));
        }
        let stored = key.clone();
        assert(cloned::<K>(key, stored));
        let h = self.add_to_head(stored, value);
        self.map.insert(key, h);
        proof {
            let handles = before.list.handles();
            let grown = self.list.handles();
            self.list.lemma_handles();
            assert forall|j: int| 0 <= j < grown.len() implies {
                let k = self.list.entry(#[trigger] grown[j]).0;
                self.map@.contains_key(k) && self.map@[k] == grown[j]
            } by {
                if j > 0 {
                    assert(grown[j] == handles[j - 1]);
                    assert(before.list.holds(handles[j - 1]));
                }
            }
            assert forall|k: K| #[trigger] self.map@.contains_key(k) implies grown.contains(
                self.map@[k],
            ) && self.list.entry(self.map@[k]).0 == k by {
                if k == key {
                    assert(grown[0] == h);
                } else {
                    let was = handles.index_of(before.map@[k]);
                    assert(0 <= was < handles.len() && handles[was] == before.map@[k]);
                    assert(before.list.holds(handles[was]));
                    assert(grown[was + 1] == handles[was]);
                }
            }
        }
    }

    /// Replaces the value of the entry under `h`.
    fn overwrite(&mut self, h: usize, value: V)
        requires
            old(self).wf(),
            old(self).list.handles().contains(h),
        ensures
            final(self).wf(),
            final(self).map == old(self).map,
            final(self).capacity == old(self).capacity,
            final(self).stats == old(self).stats,
            final(self).list.handles() == old(self).list.handles(),
            final(self).list@ == old(self).list@.update(
                old(self).list.handles().index_of(h),
                (old(self).list.entry(h).0, value),
            ),
            final(self).list.entry(h) == (old(self).list.entry(h).0, value),
    {
        let ghost handles = self.list.handles();
        let ghost at = handles.index_of(h);
        proof {
            self.list.lemma_handles();
        }
        self.list.set_value(h, value);
        proof {
            self.list.lemma_handles();
            assert forall|j: int| 0 <= j < handles.len() implies {
                let key = self.list.entry(#[trigger] handles[j]).0;
                self.map@.contains_key(key) && self.map@[key] == handles[j]
            } by {
                assert(old(self).list.holds(handles[j]));
            }
            assert forall|key: K| #[trigger] self.map@.contains_key(key) implies handles.contains(
                self.map@[key],
            ) && self.list.entry(self.map@[key]).0 == key by {
                let was = handles.index_of(self.map@[key]);
                assert(0 <= was < handles.len() && handles[was] == self.map@[key]);
                assert(old(self).list.holds(handles[was]));
            }
            assert forall|j: int| 0 <= j < handles.len() implies self.list@[j] == old(
                self,
            ).list@.update(at, (old(self).list.entry(h).0, value))[j] by {
                assert(old(self).list.holds(handles[j]));
            }
            assert(self.list@ =~= old(self).list@.update(at, (old(self).list.entry(h).0, value)));
        }
    }

    /// Stores a new entry and links it as the most recently used one.
    /// Returns its handle, which the index does not know yet.
    fn add_to_head(&mut self, key: K, value: V) -> (h: usize)
        requires
            old(self).list.wf(),
        ensures
            final(self).list.wf(),
            final(self).map == old(self).map,
            final(self).capacity == old(self).capacity,
            final(self).stats == old(self).stats,
            final(self).list.handles() == seq![h] + old(self).list.handles(),
            final(self).list@ == seq![(key, value)] + old(self).list@,
            final(self).list.entry(h) == (key, value),
            !old(self).list.holds(h),
            forall|i: usize|
                old(self).list.holds(i) ==> final(self).list.holds(i) && final(self).list.entry(i)
                    == old(self).list.entry(i),
    {
        let ghost handles = self.list.handles();
        proof {
            self.list.lemma_handles();
        }
        let h = self.list.new_entry(key, value);
        assert(!handles.contains(h)) by {
            if handles.contains(h) {
                let j = handles.index_of(h);
                assert(old(self).list.holds(handles[j]));
            }
        }
        self.list.push_front(h);
        proof {
            let grown = self.list.handles();
            self.list.lemma_handles();
            assert forall|j: int| 0 <= j < grown.len() implies self.list@[j] == (seq![(key, value)]
                + old(self).list@)[j] by {
                if j > 0 {
                    assert(grown[j] == handles[j - 1]);
                    assert(old(self).list.holds(handles[j - 1]));
                }
            }
            assert(self.list@ =~= seq![(key, value)] + old(self).list@);
        }
        h
    }

    /// The number of entries.
    pub fn len(&self) -> (n: usize)
        requires
            self.wf(),
        ensures
            n == self@.len(),
    {
        proof {
            self.lemma_wf();
        }
        self.map.len()
    }

    /// Whether the cache holds no entry.
    pub fn is_empty(&self) -> (empty: bool)
        requires
            self.wf(),
        ensures
            empty == (self@.len() == 0),
    {
        proof {
            self.lemma_wf();
        }
        self.map.len() == 0
    }

    /// The most recently used entry, if there is one. Looking at it is no
    /// use of it: neither the order nor the counters change.
    pub fn head(&self) -> (node: Option<&Node<K, V>>)
        requires
            self.wf(),
        ensures
            match node {
                Some(node) => self@.len() > 0 && node.entry() == self@.entries.first(),
                None => self@.len() == 0,
            },
    {
        proof {
            self.list.lemma_handles();
        }
        match self.list.front() {
            Some(h) => Some(self.list.get(h)),
            None => None,
        }
    }

    /// The least recently used entry, if there is one. Looking at it is no
    /// use of it: neither the order nor the counters change.
    pub fn tail(&self) -> (node: Option<&Node<K, V>>)
        requires
            self.wf(),
        ensures
            match node {
                Some(node) => self@.len() > 0 && node.entry() == self@.entries.last(),
                None => self@.len() == 0,
            },
    {
        proof {
            self.list.lemma_handles();
        }
        match self.list.back() {
            Some(h) => Some(self.list.get(h)),
            None => None,
        }
    }

    /// The lookup counters as they stand.
    pub fn stats(&self) -> (status: CacheStatus)
        ensures
            status.hits() == self@.hits,
            status.misses() == self@.misses,
    {
        self.stats
    }
}

} // verus!
