use vstd::prelude::*;

verus! {

/// What an LRU cache is to its callers: the entries from the most recently
/// used to the least recently used, the capacity, and the lookup counters.
pub struct LruState<K, V> {
    pub entries: Seq<(K, V)>,
    pub capacity: nat,
    pub hits: nat,
    pub misses: nat,
}

/// One call on an LRU cache.
pub enum Operation<K, V> {
    Put(K, V),
    Get(K),
    RemoveLru,
}

/// The number of lookups among `ops`.
pub open spec fn lookups_in<K, V>(ops: Seq<Operation<K, V>>) -> nat
    decreases ops.len(),
{
    if ops.len() == 0 {
        0
    } else {
        lookups_in(ops.drop_last()) + (if ops.last() is Get {
            1nat
        } else {
            0nat
        })
    }
}

impl<K, V> LruState<K, V> {
    /// The cache as it is made: no entries, no lookups counted.
    pub open spec fn empty(capacity: nat) -> Self {
        LruState { entries: Seq::empty(), capacity, hits: 0, misses: 0 }
    }

    /// The keys, most recently used first.
    pub open spec fn keys(self) -> Seq<K> {
        self.entries.map_values(|e: (K, V)| e.0)
    }

    pub open spec fn len(self) -> nat {
        self.entries.len()
    }

    pub open spec fn contains_key(self, key: K) -> bool {
        self.keys().contains(key)
    }

    /// Where `key` stands in the recency order; 0 is the most recently used.
    pub open spec fn position(self, key: K) -> int {
        self.keys().index_of(key)
    }

    /// The value stored under `key`.
    pub open spec fn value_of(self, key: K) -> V {
        self.entries[self.position(key)].1
    }

    /// No key is stored twice, and the entries fit the capacity, which is
    /// at least one.
    pub open spec fn inv(self) -> bool {
        &&& self.keys().no_duplicates()
        &&& 1 <= self.capacity
        &&& self.len() <= self.capacity
    }

    /// The state after the least recently used entry, if any, is dropped.
    pub open spec fn remove_lru(self) -> Self {
        if self.len() == 0 {
            self
        } else {
            LruState { entries: self.entries.drop_last(), ..self }
        }
    }

    /// The state after `key` is stored with `value`: an existing entry is
    /// overwritten and promoted; a new one goes to the front, after the
    /// least recently used entry has made room where the cache was full.
    pub open spec fn put(self, key: K, value: V) -> Self {
        if self.contains_key(key) {
            LruState {
                entries: seq![(key, value)] + self.entries.remove(self.position(key)),
                ..self
            }
        } else if self.len() >= self.capacity {
            LruState { entries: seq![(key, value)] + self.remove_lru().entries, ..self }
        } else {
            LruState { entries: seq![(key, value)] + self.entries, ..self }
        }
    }

    /// What a lookup of `key` finds.
    pub open spec fn lookup(self, key: K) -> Option<V> {
        if self.contains_key(key) {
            Some(self.value_of(key))
        } else {
            None
        }
    }

    /// The state after a lookup of `key`: a hit is counted and promotes the
    /// entry, a miss is counted and changes nothing else.
    pub open spec fn get(self, key: K) -> Self {
        if self.contains_key(key) {
            let at = self.position(key);
            LruState {
                entries: seq![self.entries[at]] + self.entries.remove(at),
                hits: self.hits + 1,
                ..self
            }
        } else {
            LruState { misses: self.misses + 1, ..self }
        }
    }

    /// The state after one call.
    pub open spec fn apply(self, op: Operation<K, V>) -> Self {
        match op {
            Operation::Put(key, value) => self.put(key, value),
            Operation::Get(key) => self.get(key),
            Operation::RemoveLru => self.remove_lru(),
        }
    }

    /// The state after the calls `ops`, made in order.
    pub open spec fn run(self, ops: Seq<Operation<K, V>>) -> Self
        decreases ops.len(),
    {
        if ops.len() == 0 {
            self
        } else {
            self.run(ops.drop_last()).apply(ops.last())
        }
    }

    /// Under the invariant a key stands at one position only.
    pub proof fn lemma_position(self, key: K, at: int)
        requires
            self.keys().no_duplicates(),
            0 <= at < self.len(),
            self.entries[at].0 == key,
        ensures
            self.contains_key(key),
            self.position(key) == at,
            self.value_of(key) == self.entries[at].1,
    {
        let keys = self.keys();
        assert(keys[at] == key);
        let found = keys.index_of(key);
        assert(0 <= found < keys.len() && keys[found] == key);
    }

    /// Dropping the least recently used entry keeps the invariant.
    pub proof fn lemma_remove_lru_keeps_inv(self)
        requires
            self.inv(),
        ensures
            self.remove_lru().inv(),
    {
        if self.len() > 0 {
            let keys = self.keys();
            let rest = self.remove_lru().keys();
            assert forall|i: int, j: int| 0 <= i < rest.len() && 0 <= j < rest.len() && i != j implies rest[i]
                != rest[j] by {
                assert(rest[i] == keys[i] && rest[j] == keys[j]);
            }
        }
    }

    /// Storing an entry keeps the invariant: the keys stay distinct and the
    /// entries never outnumber the capacity.
    pub proof fn lemma_put_keeps_inv(self, key: K, value: V)
        requires
            self.inv(),
        ensures
            self.put(key, value).inv(),
            self.put(key, value).capacity == self.capacity,
    {
        let keys = self.keys();
        let after = self.put(key, value);
        let grown = after.keys();
        if self.contains_key(key) {
            let at = self.position(key);
            assert(0 <= at < keys.len() && keys[at] == key);
            assert forall|i: int, j: int|
                0 <= i < grown.len() && 0 <= j < grown.len() && i != j implies grown[i] != grown[j] by {
                let was_i: int = if i == 0 {
                    at
                } else if i - 1 < at {
                    i - 1
                } else {
                    i
                };
                let was_j: int = if j == 0 {
                    at
                } else if j - 1 < at {
                    j - 1
                } else {
                    j
                };
                assert(grown[i] == keys[was_i]);
                assert(grown[j] == keys[was_j]);
            }
        } else {
            let kept = if self.len() >= self.capacity {
                self.remove_lru()
            } else {
                self
            };
            self.lemma_remove_lru_keeps_inv();
            assert(after.entries == seq![(key, value)] + kept.entries);
            assert forall|i: int, j: int|
                0 <= i < grown.len() && 0 <= j < grown.len() && i != j implies grown[i] != grown[j] by {
                if i > 0 {
                    assert(grown[i] == kept.keys()[i - 1]);
                    assert(kept.keys()[i - 1] == keys[i - 1]);
                }
                if j > 0 {
                    assert(grown[j] == kept.keys()[j - 1]);
                    assert(kept.keys()[j - 1] == keys[j - 1]);
                }
            }
        }
    }

    /// A lookup keeps the invariant.
    pub proof fn lemma_get_keeps_inv(self, key: K)
        requires
            self.inv(),
        ensures
            self.get(key).inv(),
            self.get(key).capacity == self.capacity,
    {
        let keys = self.keys();
        let moved = self.get(key).keys();
        if self.contains_key(key) {
            let at = self.position(key);
            assert(0 <= at < keys.len() && keys[at] == key);
            assert forall|i: int, j: int|
                0 <= i < moved.len() && 0 <= j < moved.len() && i != j implies moved[i] != moved[j] by {
                let was_i: int = if i == 0 {
                    at
                } else if i - 1 < at {
                    i - 1
                } else {
                    i
                };
                let was_j: int = if j == 0 {
                    at
                } else if j - 1 < at {
                    j - 1
                } else {
                    j
                };
                assert(moved[i] == keys[was_i]);
                assert(moved[j] == keys[was_j]);
            }
        }
    }

    /// Whatever calls are made on a cache, and in whatever order, its keys
    /// stay distinct, its capacity stays what it was, and it never holds
    /// more entries than its capacity.
    pub proof fn lemma_run_keeps_inv(self, ops: Seq<Operation<K, V>>)
        requires
            self.inv(),
        ensures
            self.run(ops).inv(),
            self.run(ops).capacity == self.capacity,
            self.run(ops).len() <= self.capacity,
        decreases ops.len(),
    {
        if ops.len() > 0 {
            let before = self.run(ops.drop_last());
            self.lemma_run_keeps_inv(ops.drop_last());
            match ops.last() {
                Operation::Put(key, value) => before.lemma_put_keeps_inv(key, value),
                Operation::Get(key) => before.lemma_get_keeps_inv(key),
                Operation::RemoveLru => before.lemma_remove_lru_keeps_inv(),
            }
        }
    }

    /// A lookup of a stored key counts one hit and no miss; a lookup of any
    /// other key counts one miss and no hit.
    pub proof fn lemma_get_counts_once(self, key: K)
        ensures
            self.contains_key(key) ==> self.get(key).hits == self.hits + 1 && self.get(key).misses
                == self.misses,
            !self.contains_key(key) ==> self.get(key).misses == self.misses + 1 && self.get(
                key,
            ).hits == self.hits,
    {
    }

    /// Whatever calls are made, the hits and the misses together grow by
    /// the number of lookups among them, and neither ever shrinks.
    pub proof fn lemma_run_counts_lookups(self, ops: Seq<Operation<K, V>>)
        ensures
            self.run(ops).hits + self.run(ops).misses == self.hits + self.misses + lookups_in(ops),
            self.run(ops).hits >= self.hits,
            self.run(ops).misses >= self.misses,
        decreases ops.len(),
    {
        if ops.len() > 0 {
            self.lemma_run_counts_lookups(ops.drop_last());
        }
    }

    /// After a key is stored, a lookup finds the value that was stored
    /// last, at the front of the order.
    pub proof fn lemma_put_then_lookup(self, key: K, value: V)
        requires
            self.inv(),
        ensures
            self.put(key, value).lookup(key) == Some(value),
            self.put(key, value).position(key) == 0,
    {
        self.lemma_put_keeps_inv(key, value);
        self.put(key, value).lemma_position(key, 0);
    }

    /// Storing under a key that is already stored changes the value and
    /// not the number of entries.
    pub proof fn lemma_put_existing_key(self, key: K, value: V)
        requires
            self.inv(),
            self.contains_key(key),
        ensures
            self.put(key, value).len() == self.len(),
            self.put(key, value).lookup(key) == Some(value),
    {
        let at = self.position(key);
        assert(0 <= at < self.keys().len() && self.keys()[at] == key);
        self.lemma_put_then_lookup(key, value);
    }

    /// Storing a new key in a full cache drops the least recently used
    /// entry and no other.
    pub proof fn lemma_put_evicts_least_recent(self, key: K, value: V)
        requires
            self.inv(),
            !self.contains_key(key),
            self.len() == self.capacity,
        ensures
            self.put(key, value).len() == self.len(),
            !self.put(key, value).contains_key(self.keys().last()),
            forall|other: K|
                self.contains_key(other) && other != self.keys().last() ==> #[trigger] self.put(
                    key,
                    value,
                ).lookup(other) == self.lookup(other),
    {
        let keys = self.keys();
        let after = self.put(key, value);
        let grown = after.keys();
        let last = keys.last();
        self.lemma_put_keeps_inv(key, value);
        assert(after.entries == seq![(key, value)] + self.entries.drop_last());
        if after.contains_key(last) {
            let at = grown.index_of(last);
            assert(0 <= at < grown.len() && grown[at] == last);
            if at > 0 {
                assert(grown[at] == keys[at - 1]);
            }
        }
        assert forall|other: K| self.contains_key(other) && other != last implies #[trigger] after.lookup(
            other,
        ) == self.lookup(other) by {
            let at = keys.index_of(other);
            assert(0 <= at < keys.len() && keys[at] == other);
            self.lemma_position(other, at);
            assert(after.entries[at + 1] == self.entries[at]);
            after.lemma_position(other, at + 1);
        }
    }

    /// A lookup that hits moves the entry to the front and leaves the
    /// others in their order, so that in a cache of two or more entries
    /// the entry is not the next to be dropped.
    pub proof fn lemma_get_promotes(self, key: K)
        requires
            self.inv(),
            self.contains_key(key),
        ensures
            self.get(key).position(key) == 0,
            self.get(key).lookup(key) == self.lookup(key),
            self.get(key).len() == self.len(),
            self.len() >= 2 ==> self.get(key).keys().last() != key,
            forall|other: K|
                self.contains_key(other) ==> #[trigger] self.get(key).lookup(other) == self.lookup(
                    other,
                ),
    {
        let keys = self.keys();
        let after = self.get(key);
        let moved = after.keys();
        let at = self.position(key);
        assert(0 <= at < keys.len() && keys[at] == key);
        self.lemma_get_keeps_inv(key);
        self.lemma_position(key, at);
        after.lemma_position(key, 0);
        if self.len() >= 2 {
            assert(moved[0] == key);
        }
        assert forall|other: K| self.contains_key(other) implies #[trigger] after.lookup(other)
            == self.lookup(other) by {
            let was = keys.index_of(other);
            assert(0 <= was < keys.len() && keys[was] == other);
            self.lemma_position(other, was);
            let now: int = if was == at {
                0
            } else if was < at {
                was + 1
            } else {
                was
            };
            assert(after.entries[now] == self.entries[was]);
            after.lemma_position(other, now);
        }
    }

    /// A lookup in an empty cache finds nothing, whatever the key, and
    /// changes nothing but the count of misses, which grows by one.
    pub proof fn lemma_lookup_in_empty_cache(self, key: K)
        requires
            self.len() == 0,
        ensures
            self.lookup(key) is None,
            self.get(key) == (LruState { misses: self.misses + 1, ..self }),
    {
    }
}

} // verus!
