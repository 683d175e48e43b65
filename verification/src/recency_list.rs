use vstd::prelude::*;

verus! {

/// One stored key/value pair together with its place in the recency order.
#[derive(Debug)]
pub struct Node<K, V> {
    key: K,
    value: V,
    prev: Option<usize>,
    next: Option<usize>,
}

impl<K, V> Node<K, V> {
    /// The key/value pair that the node stores.
    pub closed spec fn entry(&self) -> (K, V) {
        (self.key, self.value)
    }

    pub fn key(&self) -> (k: &K)
        ensures
            *k == self.entry().0,
    {
        &self.key
    }

    pub fn value(&self) -> (v: &V)
        ensures
            *v == self.entry().1,
    {
        &self.value
    }
}

/// A doubly linked list of entries, ordered from the most recently used
/// (front) to the least recently used (back).
///
/// Entries live in an arena and are addressed by handles: indices that stay
/// the same for as long as the entry is stored.
pub struct RecencyList<K, V> {
    slots: Vec<Option<Node<K, V>>>,
    free: Vec<usize>,
    head: Option<usize>,
    tail: Option<usize>,
    order: Ghost<Seq<usize>>,
}

/// The handle that stands before position `j` of `order`, if any.
pub open spec fn before(order: Seq<usize>, j: int) -> Option<usize> {
    if j == 0 {
        None
    } else {
        Some(order[j - 1])
    }
}

/// The handle that stands after position `j` of `order`, if any.
pub open spec fn after(order: Seq<usize>, j: int) -> Option<usize> {
    if j + 1 == order.len() {
        None
    } else {
        Some(order[j + 1])
    }
}

impl<K, V> RecencyList<K, V> {
    /// The handles of the linked entries, most recently used first.
    pub closed spec fn handles(&self) -> Seq<usize> {
        self.order@
    }

    /// Whether `h` addresses a stored entry, linked or detached.
    pub closed spec fn holds(&self, h: usize) -> bool {
        (h as int) < self.slots@.len() && self.slots@[h as int] is Some
    }

    /// The node stored under `h`.
    pub closed spec fn node(&self, h: usize) -> Node<K, V> {
        self.slots@[h as int]->0
    }

    /// The key/value pair stored under `h`.
    pub open spec fn entry(&self, h: usize) -> (K, V) {
        self.node(h).entry()
    }

    /// The linked entries, most recently used first.
    pub open spec fn view(&self) -> Seq<(K, V)> {
        Seq::new(self.handles().len(), |j: int| self.entry(self.handles()[j]))
    }

    /// Whether `h` addresses an entry that is stored but not linked.
    pub open spec fn detached(&self, h: usize) -> bool {
        self.holds(h) && !self.handles().contains(h)
    }

    spec fn linked(&self) -> bool {
        let order = self.order@;
        &&& order.no_duplicates()
        &&& forall|j: int|
            0 <= j < order.len() ==> {
                &&& self.holds(#[trigger] order[j])
                &&& self.node(order[j]).prev == before(order, j)
                &&& self.node(order[j]).next == after(order, j)
            }
        &&& self.head == (if order.len() == 0 {
            None
        } else {
            Some(order[0])
        })
        &&& self.tail == (if order.len() == 0 {
            None
        } else {
            Some(order[order.len() - 1])
        })
    }

    spec fn free_slots_empty(&self) -> bool {
        &&& self.free@.no_duplicates()
        &&& forall|f: int|
            0 <= f < self.free@.len() ==> (#[trigger] self.free@[f] as int) < self.slots@.len()
                && self.slots@[self.free@[f] as int] is None
    }

    /// The links agree with the order of the handles, every linked handle
    /// addresses a stored entry, and no handle is linked twice.
    pub closed spec fn wf(&self) -> bool {
        &&& self.linked()
        &&& self.free_slots_empty()
    }

    /// What well-formedness says of the handles.
    pub proof fn lemma_handles(&self)
        requires
            self.wf(),
        ensures
            self.handles().no_duplicates(),
            self@.len() == self.handles().len(),
            forall|j: int| 0 <= j < self.handles().len() ==> self.holds(#[trigger] self.handles()[j]),
            forall|j: int|
                0 <= j < self.handles().len() ==> #[trigger] self@[j] == self.entry(
                    self.handles()[j],
                ),
    {
    }

    /// An empty list.
    pub fn new() -> (list: Self)
        ensures
            list.wf(),
            list.handles() == Seq::<usize>::empty(),
            forall|h: usize| !list.holds(h),
    {
        RecencyList {
            slots: Vec::new(),
            free: Vec::new(),
            head: None,
            tail: None,
            order: Ghost(Seq::empty()),
        }
    }

    /// Stores a new entry without linking it, and returns its handle.
    pub fn new_entry(&mut self, key: K, value: V) -> (h: usize)
        requires
            old(self).wf(),
        ensures
            final(self).wf(),
            final(self).handles() == old(self).handles(),
            !old(self).holds(h),
            final(self).holds(h),
            final(self).entry(h) == (key, value),
            forall|i: usize| i != h ==> final(self).holds(i) == old(self).holds(i),
            forall|i: usize| old(self).holds(i) ==> final(self).node(i) == old(self).node(i),
    {
        let node = Node { key, value, prev: None, next: None };
        let ghost order = self.order@;
        let ghost free = self.free@;
        let h: usize = match self.free.pop() {
            Some(h) => {
                assert(h == free[free.len() - 1]);
                self.slots.set(h, Some(node));
                h
            },
            None => {
                self.slots.push(Some(node));
                self.slots.len() - 1
            },
        };
        proof {
            assert forall|j: int| 0 <= j < order.len() implies #[trigger] order[j] != h by {
                assert(old(self).holds(order[j]));
            }
            assert forall|f: int| 0 <= f < self.free@.len() implies (#[trigger] self.free@[f]
                as int) < self.slots@.len() && self.slots@[self.free@[f] as int] is None by {
                assert(self.free@[f] == free[f]);
            }
        }
        h
    }

    /// The handle of the most recently used entry, if there is one.
    pub fn front(&self) -> (h: Option<usize>)
        requires
            self.wf(),
        ensures
            h == (if self.handles().len() == 0 {
                None
            } else {
                Some(self.handles()[0])
            }),
    {
        self.head
    }

    /// The handle of the least recently used entry, if there is one.
    pub fn back(&self) -> (h: Option<usize>)
        requires
            self.wf(),
        ensures
            h == (if self.handles().len() == 0 {
                None
            } else {
                Some(self.handles().last())
            }),
    {
        self.tail
    }

    /// The node stored under `h`.
    pub fn get(&self, h: usize) -> (node: &Node<K, V>)
        requires
            self.holds(h),
        ensures
            *node == self.node(h),
    {
        self.slots[h].as_ref().unwrap()
    }

    fn set_prev(&mut self, h: usize, prev: Option<usize>)
        requires
            old(self).holds(h),
        ensures
            final(self).slots@ == old(self).slots@.update(
                h as int,
                Some(Node { prev, ..old(self).node(h) }),
            ),
            final(self).free == old(self).free,
            final(self).head == old(self).head,
            final(self).tail == old(self).tail,
            final(self).order == old(self).order,
    {
        let mut slot: Option<Node<K, V>> = None;
        self.slots.set_and_swap(h, &mut slot);
        let mut node = slot.unwrap();
        node.prev = prev;
        self.slots.set(h, Some(node));
    }

    fn set_next(&mut self, h: usize, next: Option<usize>)
        requires
            old(self).holds(h),
        ensures
            final(self).slots@ == old(self).slots@.update(
                h as int,
                Some(Node { next, ..old(self).node(h) }),
            ),
            final(self).free == old(self).free,
            final(self).head == old(self).head,
            final(self).tail == old(self).tail,
            final(self).order == old(self).order,
    {
        let mut slot: Option<Node<K, V>> = None;
        self.slots.set_and_swap(h, &mut slot);
        let mut node = slot.unwrap();
        node.next = next;
        self.slots.set(h, Some(node));
    }

    /// Replaces the value stored under `h`; the key and the order stay.
    pub fn set_value(&mut self, h: usize, value: V)
        requires
            old(self).wf(),
            old(self).holds(h),
        ensures
            final(self).wf(),
            final(self).handles() == old(self).handles(),
            final(self).entry(h) == (old(self).entry(h).0, value),
            forall|i: usize| final(self).holds(i) == old(self).holds(i),
            forall|i: usize| old(self).holds(i) && i != h ==> final(self).node(i) == old(self).node(i),
    {
        let mut slot: Option<Node<K, V>> = None;
        self.slots.set_and_swap(h, &mut slot);
        let mut node = slot.unwrap();
        node.value = value;
        self.slots.set(h, Some(node));
        proof {
            let order = self.order@;
            assert forall|j: int| 0 <= j < order.len() implies {
                &&& self.holds(#[trigger] order[j])
                &&& self.node(order[j]).prev == before(order, j)
                &&& self.node(order[j]).next == after(order, j)
            } by {
                assert(old(self).holds(order[j]));
            }
            assert forall|f: int| 0 <= f < self.free@.len() implies (#[trigger] self.free@[f]
                as int) < self.slots@.len() && self.slots@[self.free@[f] as int] is None by {
                assert(old(self).slots@[old(self).free@[f] as int] is None);
            }
        }
    }

    /// Links the detached entry `h` in front of all others.
    pub fn push_front(&mut self, h: usize)
        requires
            old(self).wf(),
            old(self).detached(h),
        ensures
            final(self).wf(),
            final(self).handles() == seq![h] + old(self).handles(),
            forall|i: usize| final(self).holds(i) == old(self).holds(i),
            forall|i: usize| old(self).holds(i) ==> final(self).entry(i) == old(self).entry(i),
    {
        let ghost order = self.order@;
        let old_head = self.head;
        self.set_prev(h, None);
        self.set_next(h, old_head);
        match old_head {
            Some(first) => {
                assert(first == order[0]);
                self.set_prev(first, Some(h));
            },
            None => {
                self.tail = Some(h);
            },
        }
        self.head = Some(h);
        self.order = Ghost(seq![h] + order);
        proof {
            let grown = self.order@;
            assert forall|j: int| 0 <= j < grown.len() implies {
                &&& self.holds(#[trigger] grown[j])
                &&& self.node(grown[j]).prev == before(grown, j)
                &&& self.node(grown[j]).next == after(grown, j)
            } by {
                if j > 0 {
                    assert(grown[j] == order[j - 1]);
                    assert(old(self).holds(order[j - 1]));
                    assert(old(self).node(order[j - 1]).next == after(order, j - 1));
                    if j > 1 {
                        assert(order[j - 1] != order[0]);
                    }
                }
            }
            assert forall|f: int| 0 <= f < self.free@.len() implies (#[trigger] self.free@[f]
                as int) < self.slots@.len() && self.slots@[self.free@[f] as int] is None by {
                assert(old(self).slots@[old(self).free@[f] as int] is None);
            }
        }
    }

    /// `self` is `was` with the neighbours of `h` joined to each other.
    spec fn bypasses(&self, was: &Self, h: usize) -> bool {
        let prev = was.node(h).prev;
        let next = was.node(h).next;
        &&& self.slots@.len() == was.slots@.len()
        &&& self.free == was.free
        &&& forall|i: usize| #[trigger] self.holds(i) == was.holds(i)
        &&& forall|i: usize| was.holds(i) ==> (#[trigger] self.node(i)).entry() == was.node(i).entry()
        &&& forall|i: usize|
            was.holds(i) && i != h ==> (#[trigger] self.node(i)).prev == (if next == Some(i) {
                prev
            } else {
                was.node(i).prev
            })
        &&& forall|i: usize|
            was.holds(i) && i != h ==> (#[trigger] self.node(i)).next == (if prev == Some(i) {
                next
            } else {
                was.node(i).next
            })
        &&& self.head == (if prev is None {
            next
        } else {
            was.head
        })
        &&& self.tail == (if next is None {
            prev
        } else {
            was.tail
        })
    }

    /// After the neighbours of the entry at position `at` have been joined,
    /// the entry that now stands at position `j` is linked as the order
    /// without position `at` asks.
    proof fn lemma_bypass_at(&self, was: &Self, at: int, j: int)
        requires
            was.wf(),
            0 <= at < was.order@.len(),
            self.bypasses(was, was.order@[at]),
            self.order@ == was.order@.remove(at),
            0 <= j < self.order@.len(),
        ensures
            self.holds(self.order@[j]),
            self.order@[j] != was.order@[at],
            self.node(self.order@[j]).prev == before(self.order@, j),
            self.node(self.order@[j]).next == after(self.order@, j),
    {
        let order = was.order@;
        let rest = self.order@;
        let h = order[at];
        let k: int = if j < at {
            j
        } else {
            j + 1
        };
        let i = order[k];
        assert(rest[j] == i);
        assert(was.holds(i));
        assert(i != h);
        assert(self.holds(i) == was.holds(i));
        assert(was.node(i).prev == before(order, k));
        assert(was.node(i).next == after(order, k));
        assert(was.node(h).prev == before(order, at));
        assert(was.node(h).next == after(order, at));
        if k == at + 1 {
            assert(was.node(h).next == Some(i));
            assert(self.node(i).prev == before(order, at));
            if at > 0 {
                assert(rest[j - 1] == order[at - 1]);
            }
        } else {
            if at + 1 < order.len() {
                assert(order[at + 1] != i);
            }
            assert(was.node(h).next != Some(i));
            assert(self.node(i).prev == before(order, k));
            if k > 0 {
                assert(rest[j - 1] == order[k - 1]);
            }
        }
        if k == at - 1 {
            assert(was.node(h).prev == Some(i));
            assert(self.node(i).next == after(order, at));
            if at + 1 < order.len() {
                assert(rest[j + 1] == order[at + 1]);
            }
        } else {
            if at > 0 {
                assert(order[at - 1] != i);
            }
            assert(was.node(h).prev != Some(i));
            assert(self.node(i).next == after(order, k));
            if k + 1 < order.len() {
                assert(rest[j + 1] == order[k + 1]);
            }
        }
    }

    /// Joining the neighbours of the entry at position `at` leaves a list
    /// whose order is the old one without that position.
    proof fn lemma_bypass(&self, was: &Self, at: int)
        requires
            was.wf(),
            0 <= at < was.order@.len(),
            self.bypasses(was, was.order@[at]),
            self.order@ == was.order@.remove(at),
        ensures
            self.wf(),
            !self.order@.contains(was.order@[at]),
    {
        let order = was.order@;
        let rest = self.order@;
        let h = order[at];
        assert forall|j: int| 0 <= j < rest.len() implies {
            &&& self.holds(#[trigger] rest[j])
            &&& self.node(rest[j]).prev == before(rest, j)
            &&& self.node(rest[j]).next == after(rest, j)
        } by {
            self.lemma_bypass_at(was, at, j);
        }
        assert forall|i: int, j: int| 0 <= i < rest.len() && 0 <= j < rest.len() && i != j implies rest[i]
            != rest[j] by {
            assert(rest[i] == order[if i < at { i } else { i + 1 }]);
            assert(rest[j] == order[if j < at { j } else { j + 1 }]);
        }
        assert forall|f: int| 0 <= f < self.free@.len() implies (#[trigger] self.free@[f] as int)
            < self.slots@.len() && self.slots@[self.free@[f] as int] is None by {
            let i = was.free@[f];
            assert(was.slots@[i as int] is None);
            assert(self.holds(i) == was.holds(i));
        }
        assert(!rest.contains(h)) by {
            if rest.contains(h) {
                let j = choose|j: int| 0 <= j < rest.len() && rest[j] == h;
                self.lemma_bypass_at(was, at, j);
            }
        }
        assert(self.head == (if rest.len() == 0 {
            None
        } else {
            Some(rest[0])
        })) by {
            if rest.len() > 0 {
                assert(rest[0] == order[if at == 0 { 1int } else { 0int }]);
            }
        }
        assert(self.tail == (if rest.len() == 0 {
            None
        } else {
            Some(rest[rest.len() - 1])
        })) by {
            if rest.len() > 0 {
                assert(rest[rest.len() - 1] == order[if at == order.len() - 1 {
                    order.len() - 2
                } else {
                    order.len() - 1
                }]);
            }
        }
    }

    /// Takes the linked entry `h` out of the order by joining its
    /// neighbours. The entry stays stored, detached, under the same handle.
    pub fn detach(&mut self, h: usize)
        requires
            old(self).wf(),
            old(self).handles().contains(h),
        ensures
            final(self).wf(),
            final(self).handles() == old(self).handles().remove(old(self).handles().index_of(h)),
            final(self).detached(h),
            forall|i: usize| final(self).holds(i) == old(self).holds(i),
            forall|i: usize| old(self).holds(i) ==> final(self).entry(i) == old(self).entry(i),
    {
        let ghost order = self.order@;
        let ghost at = order.index_of(h);
        assert(0 <= at < order.len() && order[at] == h);
        let node = self.get(h);
        let prev = node.prev;
        let next = node.next;
        proof {
            if at > 0 {
                assert(self.holds(order[at - 1]) && order[at - 1] != h);
            }
            if at + 1 < order.len() {
                assert(self.holds(order[at + 1]) && order[at + 1] != h);
            }
            if at > 0 && at + 1 < order.len() {
                assert(order[at - 1] != order[at + 1]);
            }
        }
        match prev {
            Some(p) => {
                self.set_next(p, next);
            },
            None => {
                self.head = next;
            },
        }
        match next {
            Some(n) => {
                self.set_prev(n, prev);
            },
            None => {
                self.tail = prev;
            },
        }
        self.set_prev(h, None);
        self.set_next(h, None);
        self.order = Ghost(order.remove(at));
        proof {
            assert(self.bypasses(old(self), h));
            self.lemma_bypass(old(self), at);
        }
    }

    /// Makes the linked entry `h` the most recently used one.
    pub fn move_to_front(&mut self, h: usize)
        requires
            old(self).wf(),
            old(self).handles().contains(h),
        ensures
            final(self).wf(),
            final(self).handles() == seq![h] + old(self).handles().remove(
                old(self).handles().index_of(h),
            ),
            forall|i: usize| final(self).holds(i) == old(self).holds(i),
            forall|i: usize| old(self).holds(i) ==> final(self).entry(i) == old(self).entry(i),
    {
        self.detach(h);
        self.push_front(h);
    }

    /// Removes the detached entry `h` from the store and hands it out.
    pub fn release(&mut self, h: usize) -> (node: Node<K, V>)
        requires
            old(self).wf(),
            old(self).detached(h),
        ensures
            final(self).wf(),
            final(self).handles() == old(self).handles(),
            node.entry() == old(self).entry(h),
            !final(self).holds(h),
            forall|i: usize| i != h ==> final(self).holds(i) == old(self).holds(i),
            forall|i: usize|
                old(self).holds(i) && i != h ==> final(self).entry(i) == old(self).entry(i),
    {
        let mut slot: Option<Node<K, V>> = None;
        self.slots.set_and_swap(h, &mut slot);
        self.free.push(h);
        proof {
            let order = self.order@;
            assert forall|j: int| 0 <= j < order.len() implies {
                &&& self.holds(#[trigger] order[j])
                &&& self.node(order[j]).prev == before(order, j)
                &&& self.node(order[j]).next == after(order, j)
            } by {
                assert(old(self).holds(order[j]));
            }
            assert forall|f: int| 0 <= f < self.free@.len() implies (#[trigger] self.free@[f]
                as int) < self.slots@.len() && self.slots@[self.free@[f] as int] is None by {
                if f < old(self).free@.len() {
                    assert(old(self).slots@[old(self).free@[f] as int] is None);
                }
            }
            assert forall|f: int, g: int|
                0 <= f < self.free@.len() && 0 <= g < self.free@.len() && f != g implies self.free@[f]
                != self.free@[g] by {
                if f < old(self).free@.len() {
                    assert(old(self).slots@[old(self).free@[f] as int] is None);
                }
                if g < old(self).free@.len() {
                    assert(old(self).slots@[old(self).free@[g] as int] is None);
                }
            }
        }
        slot.unwrap()
    }

    /// Removes the least recently used entry and hands it out; `None` when
    /// the list has no entries.
    pub fn pop_back(&mut self) -> (popped: Option<Node<K, V>>)
        requires
            old(self).wf(),
        ensures
            final(self).wf(),
            match popped {
                None => old(self).handles().len() == 0 && *final(self) == *old(self),
                Some(node) => {
                    let last = old(self).handles().last();
                    &&& old(self).handles().len() > 0
                    &&& node.entry() == old(self).entry(last)
                    &&& final(self).handles() == old(self).handles().drop_last()
                    &&& !final(self).holds(last)
                    &&& forall|i: usize| i != last ==> final(self).holds(i) == old(self).holds(i)
                    &&& forall|i: usize|
                        old(self).holds(i) && i != last ==> final(self).entry(i) == old(self).entry(
                            i,
                        )
                },
            },
    {
        match self.tail {
            None => None,
            Some(last) => {
                proof {
                    let order = self.order@;
                    let at = order.index_of(last);
                    assert(order[order.len() - 1] == last);
                    assert(order.remove(order.len() - 1) =~= order.drop_last());
                }
                self.detach(last);
                Some(self.release(last))
            },
        }
    }
}

} // verus!
