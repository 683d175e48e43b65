use std::collections::HashMap;
use std::hash::Hash;
use vstd::prelude::*;
use vstd::std_specs::hash::*;

verus! {

/// The entries of a cache with room for `capacity` after an attempt to
/// store `value` under `key` in `entries`: a full cache drops the pair
/// without a sign, whether or not the key is already stored.
pub open spec fn stored<K, V>(entries: Map<K, V>, capacity: nat, key: K, value: V) -> Map<K, V> {
    if entries.len() >= capacity {
        entries
    } else {
        entries.insert(key, value)
    }
}

/// The entries after attempts to store each of `pairs`, in order.
pub open spec fn stored_all<K, V>(entries: Map<K, V>, capacity: nat, pairs: Seq<(K, V)>) -> Map<
    K,
    V,
>
    decreases pairs.len(),
{
    if pairs.len() == 0 {
        entries
    } else {
        stored(stored_all(entries, capacity, pairs.drop_last()), capacity, pairs.last().0, pairs.last().1)
    }
}

/// Whether the keys of `pairs` are all different.
pub open spec fn distinct_keys<K, V>(pairs: Seq<(K, V)>) -> bool {
    forall|i: int, j: int|
        0 <= i < pairs.len() && 0 <= j < pairs.len() && i != j ==> pairs[i].0 != pairs[j].0
}

/// Pairs with distinct keys that fit the capacity are all stored in an
/// empty cache, and nothing else is.
pub proof fn lemma_stored_all_that_fit<K, V>(capacity: nat, pairs: Seq<(K, V)>)
    requires
        pairs.len() <= capacity,
        distinct_keys(pairs),
    ensures
        stored_all(Map::<K, V>::empty(), capacity, pairs).dom().finite(),
        stored_all(Map::<K, V>::empty(), capacity, pairs).len() == pairs.len(),
        forall|j: int|
            0 <= j < pairs.len() ==> stored_all(Map::<K, V>::empty(), capacity, pairs).contains_pair(
                #[trigger] pairs[j].0,
                pairs[j].1,
            ),
        forall|key: K|
            stored_all(Map::<K, V>::empty(), capacity, pairs).contains_key(key) ==> exists|j: int|
                0 <= j < pairs.len() && #[trigger] pairs[j].0 == key,
    decreases pairs.len(),
{
    if pairs.len() > 0 {
        let earlier = pairs.drop_last();
        let before = stored_all(Map::<K, V>::empty(), capacity, earlier);
        let after = stored_all(Map::<K, V>::empty(), capacity, pairs);
        let last = pairs.last();
        assert(distinct_keys(earlier)) by {
            assert forall|i: int, j: int|
                0 <= i < earlier.len() && 0 <= j < earlier.len() && i != j implies earlier[i].0
                != earlier[j].0 by {
                assert(earlier[i] == pairs[i] && earlier[j] == pairs[j]);
            }
        }
        lemma_stored_all_that_fit(capacity, earlier);
        assert(after == before.insert(last.0, last.1));
        assert(!before.contains_key(last.0)) by {
            if before.contains_key(last.0) {
                let j = choose|j: int| 0 <= j < earlier.len() && #[trigger] earlier[j].0 == last.0;
                assert(earlier[j] == pairs[j]);
            }
        }
        assert forall|j: int| 0 <= j < pairs.len() implies after.contains_pair(
            #[trigger] pairs[j].0,
            pairs[j].1,
        ) by {
            if j < earlier.len() {
                assert(earlier[j] == pairs[j]);
                assert(before.contains_pair(earlier[j].0, earlier[j].1));
            }
        }
        assert forall|key: K| after.contains_key(key) implies exists|j: int|
            0 <= j < pairs.len() && #[trigger] pairs[j].0 == key by {
            if key == last.0 {
                assert(pairs[pairs.len() - 1].0 == key);
            } else {
                let j = choose|j: int| 0 <= j < earlier.len() && #[trigger] earlier[j].0 == key;
                assert(pairs[j].0 == key);
            }
        }
    }
}

/// Once as many pairs with distinct keys as the capacity allows have been
/// stored in an empty cache, the cache is full, and an attempt to store a
/// further key changes nothing: the count stays and the key stays absent.
pub proof fn lemma_saturation<K, V>(capacity: nat, pairs: Seq<(K, V)>, key: K, value: V)
    requires
        pairs.len() == capacity,
        distinct_keys(pairs),
        forall|j: int| 0 <= j < pairs.len() ==> #[trigger] pairs[j].0 != key,
    ensures
        stored_all(Map::<K, V>::empty(), capacity, pairs).len() == capacity,
        !stored_all(Map::<K, V>::empty(), capacity, pairs).contains_key(key),
        stored(stored_all(Map::<K, V>::empty(), capacity, pairs), capacity, key, value)
            == stored_all(Map::<K, V>::empty(), capacity, pairs),
{
    lemma_stored_all_that_fit(capacity, pairs);
}

/// A cache that holds at most `capacity` entries and takes no new pair
/// once it is full. Nothing is ever dropped from it, and a lookup changes
/// nothing.
pub struct Cache<K, V> {
    map: HashMap<K, V>,
    capacity: usize,
}

impl<K, V> View for Cache<K, V> {
    type V = Map<K, V>;

    closed spec fn view(&self) -> Map<K, V> {
        self.map@
    }
}

impl<K: Eq + Hash, V> Cache<K, V> {
    /// The most entries that the cache takes.
    pub closed spec fn spec_capacity(&self) -> usize {
        self.capacity
    }

    /// The keys hash and compare as a hash table expects, and the entries
    /// fit the capacity.
    pub closed spec fn wf(&self) -> bool {
        &&& obeys_key_model::<K>()
        &&& self.map@.len() <= self.capacity
    }

    /// What well-formedness says of the entries.
    pub proof fn lemma_wf(&self)
        requires
            self.wf(),
        ensures
            self@.dom().finite(),
            self@.len() <= self.capacity(),
    {
    }

    /// An empty cache for at most `capacity` entries.
    pub fn new(capacity: usize) -> (cache: Cache<K, V>)
        requires
            obeys_key_model::<K>(),
        ensures
            cache.wf(),
            cache@ == Map::<K, V>::empty(),
            cache.capacity() == capacity,
    {
        Cache { map: HashMap::new(), capacity }
    }

    #[verifier::when_used_as_spec(spec_capacity)]
    pub fn capacity(&self) -> (capacity: usize)
        ensures
            capacity == self.capacity(),
    {
        self.capacity
    }

    /// The number of entries.
    pub fn len(&self) -> (n: usize)
        requires
            self.wf(),
        ensures
            n == self@.len(),
    {
        self.map.len()
    }

    /// Stores `value` under `key` where the cache has room; a full cache
    /// stays as it is.
    pub fn put(&mut self, key: K, value: V)
        requires
            old(self).wf(),
        ensures
            final(self).wf(),
            final(self).capacity() == old(self).capacity(),
            final(self)@ == stored(old(self)@, old(self).capacity() as nat, key, value),
    {
        if self.map.len() >= self.capacity {
            return ;
        }
        self.map.insert(key, value);
    }

    /// The value stored under `key`, if there is one.
    pub fn get(&self, key: &K) -> (found: Option<&V>)
        requires
            self.wf(),
        ensures
            match found {
                Some(value) => self@.contains_key(*key) && *value == self@[*key],
                None => !self@.contains_key(*key),
            },
    {
        self.map.get(key)
    }
}

} // verus!
