use crate::data_structures::custom_hashmap::CustomHashMap;
use crate::data_structures::hash_key::HashKey;
use crate::data_structures::recency_list::{
    after_get, after_insert, after_remove, bounded, distinct_keys, position_of, promoted,
};
use vstd::prelude::*;

verus! {

/// The slot that a new entry takes: the spare slot that was given up last,
/// or, where none is spare, a new slot at the end of the arena.
pub open spec fn slot_for_new(spare: Seq<usize>, arena_len: nat) -> usize {
    if spare.len() > 0 {
        spare.last()
    } else {
        arena_len as usize
    }
}

/// The spare slots after a new entry took its slot.
pub open spec fn spare_after_new(spare: Seq<usize>) -> Seq<usize> {
    if spare.len() > 0 {
        spare.drop_last()
    } else {
        spare
    }
}

/// The number of slots of the arena after a new entry took its slot.
pub open spec fn arena_after_new(spare: Seq<usize>, arena_len: nat) -> nat {
    if spare.len() > 0 {
        arena_len
    } else {
        arena_len + 1
    }
}

/// The slots of the residents after a new entry took `slot` in a cache that
/// holds at most `capacity` entries.
pub open spec fn slots_after_new(slots: Seq<usize>, slot: usize, capacity: nat) -> Seq<usize> {
    bounded(seq![slot] + slots, capacity)
}

/// The spare slots after a new entry took its slot and the entries beyond
/// the capacity gave up theirs.
pub open spec fn spare_after_insert(
    spare: Seq<usize>,
    slots: Seq<usize>,
    arena_len: nat,
    capacity: nat,
) -> Seq<usize> {
    let grown = seq![slot_for_new(spare, arena_len)] + slots;
    if grown.len() > capacity {
        spare_after_new(spare).push(grown.last())
    } else {
        spare_after_new(spare)
    }
}

/// A slot of the arena while it is in use: an entry and its two neighbours in
/// the recency list, as arena indices.
struct Node<K, V> {
    key: K,
    value: V,
    prev: Option<usize>,
    next: Option<usize>,
}

/// A cache that holds at most `capacity` entries and gives up the least
/// recently used one when a new key would exceed that.
///
/// The entries live in an arena of slots and form a doubly linked list through
/// arena indices, most recently used first. A map from key to arena index
/// finds an entry, and slots that were given up are kept for reuse.
///
/// The model of a cache is its recency list: the resident `(key, value)`
/// pairs, most recently used first.
pub struct CustomLruCache<K, V> {
    map: CustomHashMap<K, usize>,
    nodes: Vec<Option<Node<K, V>>>,
    free: Vec<usize>,
    head: Option<usize>,
    tail: Option<usize>,
    capacity: usize,
    order: Ghost<Seq<usize>>,
}

/// The key of the entry in slot `idx`.
spec fn key_at<K: HashKey, V>(nodes: Seq<Option<Node<K, V>>>, idx: usize) -> K::V {
    nodes[idx as int].unwrap().key@
}

/// The entry in slot `idx`.
spec fn entry_at<K: HashKey, V>(nodes: Seq<Option<Node<K, V>>>, idx: usize) -> (K::V, V) {
    (nodes[idx as int].unwrap().key@, nodes[idx as int].unwrap().value)
}

/// The entries in the slots of `order`, in that order.
spec fn entries<K: HashKey, V>(nodes: Seq<Option<Node<K, V>>>, order: Seq<usize>) -> Seq<
    (K::V, V),
> {
    Seq::new(order.len(), |i: int| entry_at(nodes, order[i]))
}

/// The slot that stands at `i` in `order` is in use and names its neighbours.
spec fn node_ok<K, V>(nodes: Seq<Option<Node<K, V>>>, order: Seq<usize>, i: int) -> bool {
    &&& order[i] < nodes.len()
    &&& nodes[order[i] as int] is Some
    &&& nodes[order[i] as int].unwrap().prev == (if i == 0 {
        None
    } else {
        Some(order[i - 1])
    })
    &&& nodes[order[i] as int].unwrap().next == (if i + 1 == order.len() {
        None
    } else {
        Some(order[i + 1])
    })
}

/// The slots in use are those of `order`, linked in that order from `head` to
/// `tail`, and the slot `detached`, if there is one, which is in use but
/// stands outside the list.
spec fn linked<K, V>(
    nodes: Seq<Option<Node<K, V>>>,
    order: Seq<usize>,
    head: Option<usize>,
    tail: Option<usize>,
    detached: Option<usize>,
) -> bool {
    &&& order.no_duplicates()
    &&& forall|i: int| 0 <= i < order.len() ==> #[trigger] node_ok(nodes, order, i)
    &&& forall|idx: int|
        0 <= idx < nodes.len() && (#[trigger] nodes[idx]) is Some ==> order.contains(idx as usize)
            || detached == Some(idx as usize)
    &&& detached matches Some(d) ==> d < nodes.len() && nodes[d as int] is Some && !order.contains(
        d,
    )
    &&& head == (if order.len() == 0 {
        None
    } else {
        Some(order[0])
    })
    &&& tail == (if order.len() == 0 {
        None
    } else {
        Some(order[order.len() - 1])
    })
}

/// The slots kept for reuse are distinct and not in use.
spec fn reusable<K, V>(nodes: Seq<Option<Node<K, V>>>, free: Seq<usize>) -> bool {
    &&& free.no_duplicates()
    &&& forall|j: int|
        0 <= j < free.len() ==> (#[trigger] free[j]) < nodes.len() && nodes[free[j] as int] is None
}

/// The map binds the key of every slot in use to that slot, and nothing else.
spec fn indexed<K: HashKey, V>(
    map: Map<K::V, usize>,
    nodes: Seq<Option<Node<K, V>>>,
    order: Seq<usize>,
) -> bool {
    &&& map.len() == order.len()
    &&& forall|i: int|
        0 <= i < order.len() ==> map.contains_key(key_at(nodes, #[trigger] order[i])) && map[key_at(
            nodes,
            order[i],
        )] == order[i]
    &&& forall|k: K::V| #[trigger]
        map.contains_key(k) ==> order.contains(map[k]) && key_at(nodes, map[k]) == k
}

/// Every slot of `order` is in use.
spec fn occupied<K, V>(nodes: Seq<Option<Node<K, V>>>, order: Seq<usize>) -> bool {
    forall|i: int|
        0 <= i < order.len() ==> (#[trigger] order[i]) < nodes.len()
            && nodes[order[i] as int] is Some
}

/// The arena `after` holds the same entries in the same slots as `before`;
/// only links may differ.
spec fn same_entries<K, V>(
    before: Seq<Option<Node<K, V>>>,
    after: Seq<Option<Node<K, V>>>,
) -> bool {
    &&& after.len() == before.len()
    &&& forall|idx: int|
        0 <= idx < before.len() ==> ((#[trigger] after[idx]) is Some) == (before[idx] is Some)
    &&& forall|idx: int|
        0 <= idx < before.len() && before[idx] is Some ==> (#[trigger] after[idx]).unwrap().key
            == before[idx].unwrap().key && after[idx].unwrap().value == before[idx].unwrap().value
}

/// The arena `after` is `before` with slot `idx` given up; the other slots
/// hold the same entries.
spec fn vacated<K, V>(
    before: Seq<Option<Node<K, V>>>,
    after: Seq<Option<Node<K, V>>>,
    idx: usize,
) -> bool {
    &&& after.len() == before.len()
    &&& idx < before.len()
    &&& after[idx as int] is None
    &&& forall|j: int|
        0 <= j < before.len() && j != idx ==> ((#[trigger] after[j]) is Some) == (before[j] is Some)
    &&& forall|j: int|
        0 <= j < before.len() && j != idx && before[j] is Some ==> (
        #[trigger] after[j]).unwrap().key == before[j].unwrap().key && after[j].unwrap().value
            == before[j].unwrap().value
}

/// The arena `after` is `before` with another value in slot `idx`.
spec fn revalued<K, V>(
    before: Seq<Option<Node<K, V>>>,
    after: Seq<Option<Node<K, V>>>,
    idx: usize,
) -> bool {
    &&& after.len() == before.len()
    &&& idx < before.len()
    &&& before[idx as int] is Some
    &&& after[idx as int] is Some
    &&& after[idx as int].unwrap().key == before[idx as int].unwrap().key
    &&& after[idx as int].unwrap().prev == before[idx as int].unwrap().prev
    &&& after[idx as int].unwrap().next == before[idx as int].unwrap().next
    &&& forall|j: int| 0 <= j < before.len() && j != idx ==> (#[trigger] after[j]) == before[j]
}

impl<K: HashKey, V> View for CustomLruCache<K, V> {
    type V = Seq<(K::V, V)>;

    closed spec fn view(&self) -> Seq<(K::V, V)> {
        entries(self.nodes@, self.order@)
    }
}

impl<K: HashKey, V> CustomLruCache<K, V> {
    /// The largest number of entries that the cache keeps.
    pub closed spec fn spec_capacity(&self) -> nat {
        self.capacity as nat
    }

    /// The arena slot of each resident entry, in the order of the recency
    /// list.
    pub closed spec fn slots(&self) -> Seq<usize> {
        self.order@
    }

    /// The number of slots of the arena, in use or not.
    pub closed spec fn arena_len(&self) -> nat {
        self.nodes@.len()
    }

    /// The slots that were given up and wait for reuse; the one given up
    /// last is reused first.
    pub closed spec fn spare_slots(&self) -> Seq<usize> {
        self.free@
    }

    /// The slot that the index leads to from each resident key.
    pub closed spec fn index(&self) -> Map<K::V, usize> {
        self.map@
    }

    /// Everything that holds of a cache between two calls, but for the bound
    /// on the number of entries.
    spec fn inv(&self) -> bool {
        &&& self.map.wf()
        &&& linked(self.nodes@, self.order@, self.head, self.tail, None)
        &&& reusable(self.nodes@, self.free@)
        &&& indexed(self.map@, self.nodes@, self.order@)
    }

    /// The invariant of the cache: the list, the arena and the map agree, and
    /// no more entries are resident than the capacity allows.
    pub closed spec fn wf(&self) -> bool {
        &&& self.inv()
        &&& self.order@.len() <= self.capacity
    }

    /// In a well-formed cache no key is resident twice, and the number of
    /// residents is within the capacity. Every resident entry has a slot of
    /// its own in the arena, to which the index leads from its key, and the
    /// spare slots are other slots of the arena, none of them twice.
    pub proof fn lemma_wf_model(&self)
        requires
            self.wf(),
        ensures
            distinct_keys(self@),
            self@.len() <= self.spec_capacity(),
            self.slots().len() == self@.len(),
            self.slots().no_duplicates(),
            self.spare_slots().no_duplicates(),
            forall|i: int|
                0 <= i < self.slots().len() ==> (#[trigger] self.slots()[i]) < self.arena_len(),
            forall|j: int|
                0 <= j < self.spare_slots().len() ==> (#[trigger] self.spare_slots()[j])
                    < self.arena_len() && !self.slots().contains(self.spare_slots()[j]),
            self.index().dom().finite(),
            self.index().len() == self@.len(),
            forall|i: int|
                0 <= i < self@.len() ==> self.index().contains_key((#[trigger] self@[i]).0)
                    && self.index()[self@[i].0] == self.slots()[i],
    {
        self.map.lemma_wf_finite();
        lemma_linked_occupied(self.nodes@, self.order@, self.head, self.tail, None);
    }

    /// Keys are distinct along the list of a cache in order.
    proof fn lemma_inv_distinct(&self)
        requires
            self.inv(),
        ensures
            distinct_keys(self@),
            self@.len() == self.order@.len(),
            forall|i: int|
                0 <= i < self.order@.len() ==> self@[i] == entry_at(
                    self.nodes@,
                    #[trigger] self.order@[i],
                ),
    {
    }
}

/// Distinct arena indices below `bound` are at most `bound` many.
proof fn lemma_distinct_indices_bounded(order: Seq<usize>, bound: nat)
    requires
        order.no_duplicates(),
        forall|i: int| 0 <= i < order.len() ==> (#[trigger] order[i]) < bound,
    ensures
        order.len() <= bound,
{
    let as_ints = order.map_values(|x: usize| x as int);
    as_ints.unique_seq_to_set();
    vstd::set_lib::lemma_int_range(0, bound as int);
    vstd::set_lib::lemma_len_subset(
        as_ints.to_set(),
        vstd::set_lib::set_int_range(0, bound as int),
    );
}

/// Every slot of a linked list is in use.
proof fn lemma_linked_occupied<K, V>(
    nodes: Seq<Option<Node<K, V>>>,
    order: Seq<usize>,
    head: Option<usize>,
    tail: Option<usize>,
    detached: Option<usize>,
)
    requires
        linked(nodes, order, head, tail, detached),
    ensures
        occupied(nodes, order),
{
    assert forall|i: int| 0 <= i < order.len() implies (#[trigger] order[i]) < nodes.len()
        && nodes[order[i] as int] is Some by {
        assert(node_ok(nodes, order, i));
    }
}

/// Links that changed only around position `p` of `order`, so as to pass it
/// by, form the list without that position.
proof fn lemma_unlinked<K, V>(
    before: Seq<Option<Node<K, V>>>,
    after: Seq<Option<Node<K, V>>>,
    order: Seq<usize>,
    p: int,
    head0: Option<usize>,
    tail0: Option<usize>,
    head1: Option<usize>,
    tail1: Option<usize>,
)
    requires
        linked(before, order, head0, tail0, None),
        0 <= p < order.len(),
        same_entries(before, after),
        forall|i: int|
            0 <= i < order.len() && i != p - 1 && i != p + 1 ==> after[(#[trigger] order[i]) as int]
                == before[order[i] as int],
        p > 0 ==> after[order[p - 1] as int].unwrap().prev == before[order[p
            - 1] as int].unwrap().prev && after[order[p - 1] as int].unwrap().next
            == before[order[p] as int].unwrap().next,
        p + 1 < order.len() ==> after[order[p + 1] as int].unwrap().next == before[order[p
            + 1] as int].unwrap().next && after[order[p + 1] as int].unwrap().prev
            == before[order[p] as int].unwrap().prev,
        head1 == (if head0 == Some(order[p]) {
            before[order[p] as int].unwrap().next
        } else {
            head0
        }),
        tail1 == (if tail0 == Some(order[p]) {
            before[order[p] as int].unwrap().prev
        } else {
            tail0
        }),
    ensures
        linked(after, order.remove(p), head1, tail1, Some(order[p])),
{
    let rest = order.remove(p);
    assert(node_ok(before, order, p));
    assert forall|i: int| 0 <= i < rest.len() implies #[trigger] node_ok(after, rest, i) by {
        if i < p {
            assert(node_ok(before, order, i));
        } else {
            assert(node_ok(before, order, i + 1));
        }
    }
    assert forall|idx: int| 0 <= idx < after.len() && (#[trigger] after[idx]) is Some implies (
    rest.contains(idx as usize) || Some(order[p]) == Some(idx as usize)) by {
        let q = order.index_of(idx as usize);
        if q < p {
            assert(rest[q] == idx as usize);
        } else if q > p {
            assert(rest[q - 1] == idx as usize);
        }
    }
}

/// A slot outside the list that names the old head as its successor, and is
/// named by it in turn, heads the list.
proof fn lemma_linked_front<K, V>(
    before: Seq<Option<Node<K, V>>>,
    after: Seq<Option<Node<K, V>>>,
    order: Seq<usize>,
    idx: usize,
    head0: Option<usize>,
    tail0: Option<usize>,
    tail1: Option<usize>,
)
    requires
        linked(before, order, head0, tail0, Some(idx)),
        same_entries(before, after),
        forall|i: int|
            1 <= i < order.len() ==> after[(#[trigger] order[i]) as int]
                == before[order[i] as int],
        order.len() > 0 ==> after[order[0] as int].unwrap().next
            == before[order[0] as int].unwrap().next && after[order[0] as int].unwrap().prev
            == Some(idx),
        after[idx as int].unwrap().prev == None::<usize>,
        after[idx as int].unwrap().next == head0,
        tail1 == (if tail0 is None {
            Some(idx)
        } else {
            tail0
        }),
    ensures
        linked(after, seq![idx] + order, Some(idx), tail1, None),
{
    let grown = seq![idx] + order;
    assert forall|i: int| 0 <= i < grown.len() implies #[trigger] node_ok(after, grown, i) by {
        if i != 0 {
            assert(node_ok(before, order, i - 1));
        }
    }
    assert forall|j: int| 0 <= j < after.len() && (#[trigger] after[j]) is Some implies (
    grown.contains(j as usize) || None::<usize> == Some(j as usize)) by {
        if j as usize == idx {
            assert(grown[0] == idx);
        } else {
            let q = order.index_of(j as usize);
            assert(grown[q + 1] == j as usize);
        }
    }
}

/// After the slot at position `p` was given up and its key unbound, the map
/// indexes the rest of the list.
proof fn lemma_indexed_removed<K: HashKey, V>(
    map: Map<K::V, usize>,
    before: Seq<Option<Node<K, V>>>,
    after: Seq<Option<Node<K, V>>>,
    order: Seq<usize>,
    p: int,
)
    requires
        indexed(map, before, order),
        map.dom().finite(),
        order.no_duplicates(),
        occupied(before, order),
        0 <= p < order.len(),
        vacated(before, after, order[p]),
    ensures
        indexed(map.remove(key_at(before, order[p])), after, order.remove(p)),
        entries(after, order.remove(p)) == entries(before, order).remove(p),
{
    let k = key_at(before, order[p]);
    let rest = order.remove(p);
    let shrunk = map.remove(k);
    assert forall|k2: K::V| #[trigger] shrunk.contains_key(k2) implies rest.contains(shrunk[k2])
        && key_at(after, shrunk[k2]) == k2 by {
        let q = order.index_of(map[k2]);
        if q < p {
            assert(rest[q] == order[q]);
        } else {
            assert(rest[q - 1] == order[q]);
        }
    }
}

/// After a new key was bound to the slot that now heads the list, the map
/// indexes the grown list.
proof fn lemma_indexed_inserted<K: HashKey, V>(
    map: Map<K::V, usize>,
    before: Seq<Option<Node<K, V>>>,
    after: Seq<Option<Node<K, V>>>,
    order: Seq<usize>,
    idx: usize,
)
    requires
        indexed(map, before, order),
        map.dom().finite(),
        occupied(before, order),
        !order.contains(idx),
        idx < after.len(),
        after[idx as int] is Some,
        !map.contains_key(key_at(after, idx)),
        forall|i: int|
            0 <= i < order.len() ==> after[(#[trigger] order[i]) as int].unwrap().key
                == before[order[i] as int].unwrap().key && after[order[i] as int].unwrap().value
                == before[order[i] as int].unwrap().value,
    ensures
        indexed(map.insert(key_at(after, idx), idx), after, seq![idx] + order),
        entries(after, seq![idx] + order) == seq![entry_at(after, idx)] + entries(before, order),
{
    let k = key_at(after, idx);
    let grown = seq![idx] + order;
    let bigger = map.insert(k, idx);
    assert forall|k2: K::V| #[trigger] bigger.contains_key(k2) implies grown.contains(bigger[k2])
        && key_at(after, bigger[k2]) == k2 by {
        if k2 == k {
            assert(grown[0] == idx);
        } else {
            let q = order.index_of(map[k2]);
            assert(grown[q + 1] == order[q]);
        }
    }
}

/// Another value in one slot leaves list, spare slots and map in order, and
/// shows in the list at that slot's position.
proof fn lemma_revalued<K: HashKey, V>(
    map: Map<K::V, usize>,
    before: Seq<Option<Node<K, V>>>,
    after: Seq<Option<Node<K, V>>>,
    order: Seq<usize>,
    free: Seq<usize>,
    head: Option<usize>,
    tail: Option<usize>,
    idx: usize,
)
    requires
        linked(before, order, head, tail, None),
        reusable(before, free),
        indexed(map, before, order),
        order.contains(idx),
        revalued(before, after, idx),
    ensures
        linked(after, order, head, tail, None),
        reusable(after, free),
        indexed(map, after, order),
        entries(after, order) == entries(before, order).update(
            order.index_of(idx),
            entry_at(after, idx),
        ),
{
    let p = order.index_of(idx);
    assert forall|i: int| 0 <= i < order.len() implies #[trigger] node_ok(after, order, i) by {
        assert(node_ok(before, order, i));
    }
    assert forall|i: int| 0 <= i < order.len() implies key_at(after, #[trigger] order[i])
        == key_at(before, order[i]) by {
        assert(node_ok(before, order, i));
    }
    assert forall|i: int| 0 <= i < order.len() implies entry_at(after, #[trigger] order[i])
        == entries(before, order).update(p, entry_at(after, idx))[i] by {
        assert(node_ok(before, order, i));
    }
}

impl<K: HashKey, V> CustomLruCache<K, V> {
    /// An empty cache that keeps at most `capacity` entries.
    pub fn new(capacity: usize) -> (cache: Self)
        ensures
            cache.wf(),
            cache@ == Seq::<(K::V, V)>::empty(),
            cache.spec_capacity() == capacity,
            cache.slots() == Seq::<usize>::empty(),
            cache.spare_slots() == Seq::<usize>::empty(),
            cache.arena_len() == 0,
            cache.index() == Map::<K::V, usize>::empty(),
    {
        CustomLruCache {
            map: CustomHashMap::new(),
            nodes: Vec::new(),
            free: Vec::new(),
            head: None,
            tail: None,
            capacity,
            order: Ghost(Seq::empty()),
        }
    }

    /// Looks `key` up. A resident entry becomes the most recently used one
    /// and its value is returned; a miss changes nothing.
    pub fn get(&mut self, key: &K) -> (value: Option<&V>)
        requires
            old(self).wf(),
        ensures
            final(self).wf(),
            final(self).spec_capacity() == old(self).spec_capacity(),
            final(self)@ == after_get(old(self)@, key@),
            value == match position_of(old(self)@, key@) {
                Some(i) => Some(&old(self)@[i].1),
                None => None,
            },
            final(self).slots() == match position_of(old(self)@, key@) {
                Some(i) => promoted(old(self).slots(), i),
                None => old(self).slots(),
            },
            final(self).spare_slots() == old(self).spare_slots(),
            final(self).arena_len() == old(self).arena_len(),
            final(self).index() == old(self).index(),
    {
        let node_idx = self.map.get(key.copy_key())?;
        let ghost p = self.order@.index_of(node_idx);
        self.move_to_front(node_idx);
        proof {
            assert(node_ok(self.nodes@, self.order@, 0));
            assert(promoted(old(self)@, p)[0] == old(self)@[p]);
        }
        match self.nodes[node_idx].as_ref() {
            Some(node) => Some(&node.value),
            None => None,
        }
    }

    /// Looks `key` up for writing. A resident entry becomes the most recently
    /// used one and its value is handed out; what is written there is the
    /// entry's value from then on. A miss changes nothing.
    pub fn get_mut(&mut self, key: &K) -> (value: Option<&mut V>)
        requires
            old(self).wf(),
        ensures
            final(self).wf(),
            final(self).spec_capacity() == old(self).spec_capacity(),
            match position_of(old(self)@, key@) {
                Some(i) => value matches Some(slot) && *slot == old(self)@[i].1 && final(self)@
                    == seq![(key@, *final(slot))] + old(self)@.remove(i),
                None => value is None && final(self)@ == old(self)@,
            },
            final(self).slots() == match position_of(old(self)@, key@) {
                Some(i) => promoted(old(self).slots(), i),
                None => old(self).slots(),
            },
            final(self).spare_slots() == old(self).spare_slots(),
            final(self).arena_len() == old(self).arena_len(),
            final(self).index() == old(self).index(),
    {
        let node_idx = self.map.get(key.copy_key())?;
        let ghost p = self.order@.index_of(node_idx);
        self.move_to_front(node_idx);
        proof {
            assert(node_ok(self.nodes@, self.order@, 0));
            assert(promoted(old(self)@, p)[0] == old(self)@[p]);
        }
        let ghost middle = self.nodes@;
        let ghost order = self.order@;
        let ghost model0 = old(self)@;
        proof {
            assert forall|after: Seq<Option<Node<K, V>>>| #[trigger]
                revalued(middle, after, node_idx) implies linked(
                after,
                order,
                self.head,
                self.tail,
                None,
            ) && reusable(after, self.free@) && indexed(self.map@, after, order) && entries(
                after,
                order,
            ) == seq![(key@, after[node_idx as int].unwrap().value)] + model0.remove(p) by {
                lemma_revalued(
                    self.map@,
                    middle,
                    after,
                    order,
                    self.free@,
                    self.head,
                    self.tail,
                    node_idx,
                );
            }
        }
        Some(value_slot(&mut self.nodes, node_idx))
    }

    /// Binds `key` to `value` and makes that entry the most recently used
    /// one. A resident key keeps its slot and takes the new value. A new key
    /// takes a spare slot, or a new one, and then the least recently used
    /// entries are given up until the capacity is met again.
    pub fn insert(&mut self, key: K, value: V)
        requires
            old(self).wf(),
        ensures
            final(self).wf(),
            final(self).spec_capacity() == old(self).spec_capacity(),
            final(self)@ == after_insert(old(self)@, key@, value, old(self).spec_capacity()),
            final(self)@.len() <= final(self).spec_capacity(),
            match position_of(old(self)@, key@) {
                Some(i) => {
                    &&& final(self).slots() == promoted(old(self).slots(), i)
                    &&& final(self).spare_slots() == old(self).spare_slots()
                    &&& final(self).arena_len() == old(self).arena_len()
                },
                None => {
                    &&& final(self).slots() == slots_after_new(
                        old(self).slots(),
                        slot_for_new(old(self).spare_slots(), old(self).arena_len()),
                        old(self).spec_capacity(),
                    )
                    &&& final(self).spare_slots() == spare_after_insert(
                        old(self).spare_slots(),
                        old(self).slots(),
                        old(self).arena_len(),
                        old(self).spec_capacity(),
                    )
                    &&& final(self).arena_len() == arena_after_new(
                        old(self).spare_slots(),
                        old(self).arena_len(),
                    )
                },
            },
    {
        let ghost order = self.order@;
        let ghost before = self.nodes@;
        let ghost map0 = self.map@;
        let ghost free0 = self.free@;
        let ghost model0 = self@;
        proof {
            self.lemma_inv_distinct();
            self.map.lemma_wf_finite();
            lemma_linked_occupied(before, order, self.head, self.tail, None);
        }
        if let Some(node_idx) = self.map.get(key.copy_key()) {
            if let Some(node) = self.nodes[node_idx].as_mut() {
                node.value = value;
                proof {
                    lemma_revalued(
                        map0,
                        before,
                        self.nodes@,
                        order,
                        free0,
                        self.head,
                        self.tail,
                        node_idx,
                    );
                }
                self.move_to_front(node_idx);
                return ;
            }
        }
        let node_idx = if let Some(idx) = self.free.pop() {
            idx
        } else {
            let idx = self.nodes.len();
            self.nodes.push(None);
            idx
        };
        let new_node = Node { key: key.copy_key(), value, prev: None, next: None };
        self.nodes[node_idx] = Some(new_node);
        let ghost placed = self.nodes@;
        proof {
            assert forall|i: int| 0 <= i < order.len() implies #[trigger] node_ok(
                placed,
                order,
                i,
            ) by {
                assert(node_ok(before, order, i));
            }
        }
        self.link_front(node_idx);
        let ghost after = self.nodes@;
        proof {
            let grown = self.order@;
            lemma_distinct_indices_bounded(grown, after.len());
            assert(after.len() == self.nodes.len());
            lemma_indexed_inserted(map0, before, after, order, node_idx);
        }
        self.map.insert(key, node_idx);
        let ghost grown_model = seq![(key@, value)] + model0;
        let ghost grown = self.order@;
        let ghost spare = self.free@;
        let ghost arena = self.nodes@.len();
        while self.map.len() > self.capacity
            invariant
                self.inv(),
                self.capacity == old(self).capacity,
                self.nodes@.len() == arena,
                grown_model.len() <= self.capacity + 1,
                grown.len() == grown_model.len(),
                self.order@.len() == grown_model.len() ==> self@ == grown_model && self.order@
                    == grown && self.free@ == spare,
                self.order@.len() != grown_model.len() ==> self.order@.len() <= self.capacity
                    && grown_model.len() > self.capacity && self@ == grown_model.take(
                    self.capacity as int,
                ) && self.order@ == grown.take(self.capacity as int) && self.free@ == spare.push(
                    grown.last(),
                ),
            decreases self.order@.len(),
        {
            self.evict_tail();
        }
    }

    /// Unbinds `key`. Returns the value of its entry, if it was resident.
    pub fn remove(&mut self, key: &K) -> (value: Option<V>)
        requires
            old(self).wf(),
        ensures
            final(self).wf(),
            final(self).spec_capacity() == old(self).spec_capacity(),
            final(self)@ == after_remove(old(self)@, key@),
            value == match position_of(old(self)@, key@) {
                Some(i) => Some(old(self)@[i].1),
                None => None,
            },
            final(self).slots() == match position_of(old(self)@, key@) {
                Some(i) => old(self).slots().remove(i),
                None => old(self).slots(),
            },
            final(self).spare_slots() == match position_of(old(self)@, key@) {
                Some(i) => old(self).spare_slots().push(old(self).slots()[i]),
                None => old(self).spare_slots(),
            },
            final(self).arena_len() == old(self).arena_len(),
            final(self).index() == old(self).index().remove(key@),
    {
        let ghost order = self.order@;
        let ghost before = self.nodes@;
        let ghost map0 = self.map@;
        proof {
            self.lemma_inv_distinct();
            self.map.lemma_wf_finite();
            lemma_linked_occupied(before, order, self.head, self.tail, None);
        }
        let node_idx = match self.map.remove(key.copy_key()) {
            Some(node_idx) => node_idx,
            None => {
                return None;
            },
        };
        let value = self.remove_node(node_idx);
        proof {
            let p = order.index_of(node_idx);
            lemma_indexed_removed(map0, before, self.nodes@, order, p);
        }
        value
    }

    /// Gives up every entry. The capacity stays.
    pub fn clear(&mut self)
        ensures
            final(self).wf(),
            final(self)@ == Seq::<(K::V, V)>::empty(),
            final(self)@.len() == 0,
            forall|k: K::V| position_of(final(self)@, k) is None,
            final(self).spec_capacity() == old(self).spec_capacity(),
            final(self).slots() == Seq::<usize>::empty(),
            final(self).spare_slots() == Seq::<usize>::empty(),
            final(self).arena_len() == 0,
            final(self).index() == Map::<K::V, usize>::empty(),
    {
        self.map.clear();
        self.nodes.clear();
        self.free.clear();
        self.head = None;
        self.tail = None;
        self.order = Ghost(Seq::empty());
    }

    /// The number of resident entries.
    pub fn len(&self) -> (size: usize)
        requires
            self.wf(),
        ensures
            size == self@.len(),
    {
        self.map.len()
    }

    /// Whether no entry is resident.
    pub fn is_empty(&self) -> (empty: bool)
        requires
            self.wf(),
        ensures
            empty == (self@.len() == 0),
    {
        self.map.is_empty()
    }

    /// Makes the entry in slot `node_idx` the head of the recency list.
    fn move_to_front(&mut self, node_idx: usize)
        requires
            old(self).inv(),
            old(self).order@.contains(node_idx),
        ensures
            final(self).inv(),
            final(self).capacity == old(self).capacity,
            final(self).map == old(self).map,
            final(self).order@.len() == old(self).order@.len(),
            final(self).order@[0] == node_idx,
            final(self)@ == promoted(old(self)@, old(self).order@.index_of(node_idx)),
            final(self).order@ == seq![node_idx] + old(self).order@.remove(
                old(self).order@.index_of(node_idx),
            ),
            final(self).free@ == old(self).free@,
            final(self).nodes@.len() == old(self).nodes@.len(),
    {
        let ghost order = self.order@;
        let ghost p = order.index_of(node_idx);
        let ghost before = self.nodes@;
        proof {
            lemma_linked_occupied(before, order, self.head, self.tail, None);
        }
        if self.head == Some(node_idx) {
            proof {
                assert(order =~= seq![node_idx] + order.remove(p));
            }
            return ;
        }
        self.unlink(node_idx);
        self.link_front(node_idx);
        proof {
            let new_order = self.order@;
            assert forall|x: usize| #[trigger] new_order.contains(x) <==> order.contains(x) by {
                if order.contains(x) {
                    let q = order.index_of(x);
                    if q < p {
                        assert(new_order[q + 1] == x);
                    } else if q > p {
                        assert(new_order[q] == x);
                    }
                }
            }
        }
    }

    /// Gives up slot `node_idx`: takes its entry out of the recency list,
    /// keeps the slot for reuse and returns the value it held.
    fn remove_node(&mut self, node_idx: usize) -> (value: Option<V>)
        requires
            linked(old(self).nodes@, old(self).order@, old(self).head, old(self).tail, None),
            reusable(old(self).nodes@, old(self).free@),
            old(self).order@.contains(node_idx),
        ensures
            linked(
                final(self).nodes@,
                final(self).order@,
                final(self).head,
                final(self).tail,
                None,
            ),
            reusable(final(self).nodes@, final(self).free@),
            final(self).order@ == old(self).order@.remove(old(self).order@.index_of(node_idx)),
            vacated(old(self).nodes@, final(self).nodes@, node_idx),
            final(self).free@ == old(self).free@.push(node_idx),
            value == Some(old(self).nodes@[node_idx as int].unwrap().value),
            final(self).map == old(self).map,
            final(self).capacity == old(self).capacity,
    {
        let ghost order = self.order@;
        self.unlink(node_idx);
        let ghost middle = self.nodes@;
        let ghost rest = self.order@;
        let node = self.nodes[node_idx].take();
        self.free.push(node_idx);
        proof {
            let after = self.nodes@;
            assert forall|i: int| 0 <= i < rest.len() implies #[trigger] node_ok(
                after,
                rest,
                i,
            ) by {
                assert(node_ok(middle, rest, i));
            }
            assert forall|j: int| 0 <= j < after.len() && (#[trigger] after[j]) is Some implies (
            rest.contains(j as usize) || None::<usize> == Some(j as usize)) by {
                assert(after.len() == self.nodes.len());
            }
        }
        match node {
            Some(node) => Some(node.value),
            None => None,
        }
    }

    /// Gives up the least recently used entry, if there is one.
    fn evict_tail(&mut self)
        requires
            old(self).inv(),
        ensures
            final(self).inv(),
            final(self).capacity == old(self).capacity,
            final(self).nodes@.len() == old(self).nodes@.len(),
            old(self).order@.len() > 0 ==> final(self)@ == old(self)@.drop_last()
                && final(self).order@ == old(self).order@.drop_last()
                && final(self).free@ == old(self).free@.push(old(self).order@.last()),
            old(self).order@.len() == 0 ==> final(self)@ == old(self)@ && final(self).order@
                == old(self).order@ && final(self).free@ == old(self).free@,
    {
        let ghost order = self.order@;
        let ghost before = self.nodes@;
        let ghost map0 = self.map@;
        if let Some(tail) = self.tail {
            proof {
                lemma_linked_occupied(before, order, self.head, self.tail, None);
                self.map.lemma_wf_finite();
            }
            if let Some(node) = &self.nodes[tail] {
                let key = node.key.copy_key();
                self.map.remove(key);
                self.remove_node(tail);
                proof {
                    let p = order.index_of(tail);
                    lemma_indexed_removed(map0, before, self.nodes@, order, p);
                }
            }
        }
    }

    /// Takes the entry in slot `node_idx` out of the recency list: its
    /// neighbours are linked to each other, and head and tail move where it
    /// was one of them. The slot stays in use.
    fn unlink(&mut self, node_idx: usize)
        requires
            linked(old(self).nodes@, old(self).order@, old(self).head, old(self).tail, None),
            old(self).order@.contains(node_idx),
        ensures
            linked(
                final(self).nodes@,
                final(self).order@,
                final(self).head,
                final(self).tail,
                Some(node_idx),
            ),
            final(self).order@ == old(self).order@.remove(old(self).order@.index_of(node_idx)),
            same_entries(old(self).nodes@, final(self).nodes@),
            final(self).map == old(self).map,
            final(self).free == old(self).free,
            final(self).capacity == old(self).capacity,
    {
        let ghost order = self.order@;
        let ghost p = order.index_of(node_idx);
        let ghost before = self.nodes@;
        proof {
            assert(node_ok(before, order, p));
            if p > 0 {
                assert(node_ok(before, order, p - 1));
            }
            if p + 1 < order.len() {
                assert(node_ok(before, order, p + 1));
            }
        }
        let (prev, next) = match &self.nodes[node_idx] {
            Some(node) => (node.prev, node.next),
            None => (None, None),
        };
        if let Some(prev_idx) = prev {
            self.nodes[prev_idx].as_mut().unwrap().next = next;
        }
        if let Some(next_idx) = next {
            self.nodes[next_idx].as_mut().unwrap().prev = prev;
        }
        let ghost head0 = self.head;
        let ghost tail0 = self.tail;
        if self.head == Some(node_idx) {
            self.head = next;
        }
        if self.tail == Some(node_idx) {
            self.tail = prev;
        }
        self.order = Ghost(order.remove(p));
        proof {
            let after = self.nodes@;
            assert forall|i: int|
                0 <= i < order.len() && i != p - 1 && i != p + 1 implies after[(
            #[trigger] order[i]) as int] == before[order[i] as int] by {
                assert(node_ok(before, order, i));
            }
            lemma_unlinked(before, after, order, p, head0, tail0, self.head, self.tail);
        }
    }

    /// Puts the entry in slot `node_idx`, which stands outside the recency
    /// list, at its head.
    fn link_front(&mut self, node_idx: usize)
        requires
            linked(
                old(self).nodes@,
                old(self).order@,
                old(self).head,
                old(self).tail,
                Some(node_idx),
            ),
        ensures
            linked(
                final(self).nodes@,
                final(self).order@,
                final(self).head,
                final(self).tail,
                None,
            ),
            final(self).order@ == seq![node_idx] + old(self).order@,
            same_entries(old(self).nodes@, final(self).nodes@),
            final(self).map == old(self).map,
            final(self).free == old(self).free,
            final(self).capacity == old(self).capacity,
    {
        let ghost order = self.order@;
        let ghost before = self.nodes@;
        let ghost tail0 = self.tail;
        let old_head = self.head;
        proof {
            if order.len() > 0 {
                assert(node_ok(before, order, 0));
            }
        }
        let node = self.nodes[node_idx].as_mut().unwrap();
        node.prev = None;
        node.next = old_head;
        if self.tail.is_none() {
            self.tail = Some(node_idx);
        }
        if let Some(head_idx) = old_head {
            self.nodes[head_idx].as_mut().unwrap().prev = Some(node_idx);
        }
        self.head = Some(node_idx);
        self.order = Ghost(seq![node_idx] + order);
        proof {
            let after = self.nodes@;
            assert forall|i: int| 1 <= i < order.len() implies after[(#[trigger] order[i]) as int]
                == before[order[i] as int] by {
                assert(node_ok(before, order, i));
            }
            lemma_linked_front(before, after, order, node_idx, old_head, tail0, self.tail);
        }
    }
}

/// The place of the value in slot `idx`, for writing.
fn value_slot<K, V>(nodes: &mut Vec<Option<Node<K, V>>>, idx: usize) -> (slot: &mut V)
    requires
        idx < old(nodes)@.len(),
        old(nodes)@[idx as int] is Some,
    ensures
        *slot == old(nodes)@[idx as int].unwrap().value,
        revalued(old(nodes)@, final(nodes)@, idx),
        final(nodes)@[idx as int].unwrap().value == *final(slot),
{
    &mut nodes[idx].as_mut().unwrap().value
}

} // verus!
