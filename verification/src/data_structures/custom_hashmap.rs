use crate::data_structures::hash_key::{hash_key, spec_hash_key, HashKey};
use vstd::prelude::*;

verus! {

/// Number of buckets of every map. It is fixed when the map is made: the map
/// never grows or rehashes, and keys that share a bucket are chained.
pub const DEFAULT_MAX_SIZE: u64 = 256;

/// The bucket that a key with model `k` belongs to.
pub open spec fn bucket_of<K: HashKey>(k: K::V) -> int {
    (spec_hash_key::<K>(k) % DEFAULT_MAX_SIZE) as int
}

/// The place of the first entry of `chain` with the key `k`.
pub open spec fn first_match<A, V>(chain: Seq<(A, V)>, k: A) -> Option<int>
    decreases chain.len(),
{
    if chain.len() == 0 {
        None
    } else if chain[0].0 == k {
        Some(0)
    } else {
        match first_match(chain.drop_first(), k) {
            Some(i) => Some(i + 1),
            None => None,
        }
    }
}

/// What a walk along `chain` finds for `k`: the value of the first entry
/// with that key.
pub open spec fn chain_get<A, V>(chain: Seq<(A, V)>, k: A) -> Option<V> {
    match first_match(chain, k) {
        Some(i) => Some(chain[i].1),
        None => None,
    }
}

/// The chain after `k` was bound to `v`: the entry with that key takes the
/// new value where it stands, or, where there is none, a new entry is linked
/// behind the last one.
pub open spec fn chain_put<A, V>(chain: Seq<(A, V)>, k: A, v: V) -> Seq<(A, V)> {
    match first_match(chain, k) {
        Some(i) => chain.update(i, (k, v)),
        None => chain.push((k, v)),
    }
}

/// The chain after `k` was unbound: the entry with that key is unlinked, and
/// its predecessor is followed by its successor.
pub open spec fn chain_cut<A, V>(chain: Seq<(A, V)>, k: A) -> Seq<(A, V)> {
    match first_match(chain, k) {
        Some(i) => chain.remove(i),
        None => chain,
    }
}

/// No key occurs twice in `chain`.
pub open spec fn chain_distinct<A, V>(chain: Seq<(A, V)>) -> bool {
    forall|i: int, j: int|
        0 <= i < chain.len() && 0 <= j < chain.len() && i != j ==> chain[i].0 != chain[j].0
}

/// The first match is an entry with the key, and no entry before it has the
/// key; there is none only where no entry has the key.
pub proof fn lemma_first_match<A, V>(chain: Seq<(A, V)>, k: A)
    ensures
        match first_match(chain, k) {
            Some(i) => 0 <= i < chain.len() && chain[i].0 == k && forall|j: int|
                0 <= j < i ==> (#[trigger] chain[j]).0 != k,
            None => forall|j: int| 0 <= j < chain.len() ==> (#[trigger] chain[j]).0 != k,
        },
    decreases chain.len(),
{
    if chain.len() > 0 && chain[0].0 != k {
        let rest = chain.drop_first();
        lemma_first_match(rest, k);
        match first_match(rest, k) {
            Some(i) => {
                assert forall|j: int| 0 <= j < i + 1 implies (#[trigger] chain[j]).0 != k by {
                    if j > 0 {
                        assert(rest[j - 1] == chain[j]);
                    }
                }
            },
            None => {
                assert forall|j: int| 0 <= j < chain.len() implies (#[trigger] chain[j]).0
                    != k by {
                    if j > 0 {
                        assert(rest[j - 1] == chain[j]);
                    }
                }
            },
        }
    }
}

/// An entry with the key before which no entry has the key is the first
/// match.
pub proof fn lemma_first_match_is<A, V>(chain: Seq<(A, V)>, k: A, i: int)
    requires
        0 <= i < chain.len(),
        chain[i].0 == k,
        forall|j: int| 0 <= j < i ==> (#[trigger] chain[j]).0 != k,
    ensures
        first_match(chain, k) == Some(i),
{
    lemma_first_match(chain, k);
}

/// In a chain whose first entry has the key, that entry is the one found,
/// rebound and unlinked.
pub proof fn lemma_chain_head<A, V>(chain: Seq<(A, V)>, k: A, v: V)
    requires
        chain.len() > 0,
        chain[0].0 == k,
    ensures
        chain_get(chain, k) == Some(chain[0].1),
        chain_put(chain, k, v) == seq![(k, v)] + chain.drop_first(),
        chain_cut(chain, k) == chain.drop_first(),
{
}

/// In a chain whose first entry has another key, the key is found, rebound
/// and unlinked in the chain behind that entry.
pub proof fn lemma_chain_step<A, V>(chain: Seq<(A, V)>, k: A, v: V)
    requires
        chain.len() > 0,
        chain[0].0 != k,
    ensures
        chain_get(chain, k) == chain_get(chain.drop_first(), k),
        chain_put(chain, k, v) == seq![chain[0]] + chain_put(chain.drop_first(), k, v),
        chain_cut(chain, k) == seq![chain[0]] + chain_cut(chain.drop_first(), k),
{
    let rest = chain.drop_first();
    lemma_first_match(rest, k);
}

/// Binding a key in a chain changes what the chain gives for that key, and
/// for no other; a chain without repeated keys stays so.
pub proof fn lemma_chain_put<A, V>(chain: Seq<(A, V)>, k: A, v: V)
    ensures
        chain_get(chain_put(chain, k, v), k) == Some(v),
        forall|other: A|
            other != k ==> #[trigger] chain_get(chain_put(chain, k, v), other) == chain_get(
                chain,
                other,
            ),
        chain_distinct(chain) ==> chain_distinct(chain_put(chain, k, v)),
{
    let after = chain_put(chain, k, v);
    lemma_first_match(chain, k);
    match first_match(chain, k) {
        Some(i) => {
            lemma_first_match_is(after, k, i);
            assert forall|other: A| other != k implies #[trigger] chain_get(after, other)
                == chain_get(chain, other) by {
                lemma_first_match(chain, other);
                match first_match(chain, other) {
                    Some(j) => {
                        lemma_first_match_is(after, other, j);
                    },
                    None => {
                        lemma_first_match(after, other);
                    },
                }
            }
        },
        None => {
            lemma_first_match_is(after, k, chain.len() as int);
            assert forall|other: A| other != k implies #[trigger] chain_get(after, other)
                == chain_get(chain, other) by {
                lemma_first_match(chain, other);
                match first_match(chain, other) {
                    Some(j) => {
                        lemma_first_match_is(after, other, j);
                    },
                    None => {
                        lemma_first_match(after, other);
                    },
                }
            }
        },
    }
}

/// Unbinding a key in a chain without repeated keys leaves nothing for that
/// key and changes nothing for any other; the chain stays without repeated
/// keys.
pub proof fn lemma_chain_cut<A, V>(chain: Seq<(A, V)>, k: A)
    requires
        chain_distinct(chain),
    ensures
        chain_get(chain_cut(chain, k), k) is None,
        forall|other: A|
            other != k ==> #[trigger] chain_get(chain_cut(chain, k), other) == chain_get(
                chain,
                other,
            ),
        chain_distinct(chain_cut(chain, k)),
{
    let after = chain_cut(chain, k);
    lemma_first_match(chain, k);
    lemma_first_match(after, k);
    match first_match(chain, k) {
        Some(i) => {
            assert forall|other: A| other != k implies #[trigger] chain_get(after, other)
                == chain_get(chain, other) by {
                lemma_first_match(chain, other);
                match first_match(chain, other) {
                    Some(j) => {
                        let moved = if j < i {
                            j
                        } else {
                            j - 1
                        };
                        lemma_first_match_is(after, other, moved);
                    },
                    None => {
                        lemma_first_match(after, other);
                    },
                }
            }
        },
        None => {},
    }
}

/// One node of a bucket's chain: a key, its value and the rest of the chain.
pub struct KeyValue<K, V> {
    key: K,
    value: V,
    next: Option<Box<KeyValue<K, V>>>,
}

impl<K, V> KeyValue<K, V> {
    /// The key held by this node.
    pub closed spec fn spec_key(&self) -> K {
        self.key
    }

    /// The value held by this node.
    pub closed spec fn spec_value(&self) -> V {
        self.value
    }

    /// Whether this node ends its chain.
    pub closed spec fn is_last(&self) -> bool {
        self.next is None
    }

    /// A node that holds `key` and `value` and has no successor.
    pub fn new(key: K, value: V) -> (node: KeyValue<K, V>)
        ensures
            node.spec_key() == key,
            node.spec_value() == value,
            node.is_last(),
    {
        KeyValue { key, value, next: None }
    }
}

impl<K: HashKey, V> KeyValue<K, V> {
    /// The entries of the chain `next`, in the order of the links.
    pub closed spec fn tail_entries(next: Option<Box<KeyValue<K, V>>>) -> Seq<(K::V, V)>
        decreases next,
    {
        match next {
            None => Seq::empty(),
            Some(node) => node.entries(),
        }
    }

    /// The entries of the chain that starts at this node, this node's first.
    pub closed spec fn entries(&self) -> Seq<(K::V, V)>
        decreases self,
    {
        seq![(self.key@, self.value)] + Self::tail_entries(self.next)
    }

    /// The chain that starts at a node is that node's entry and then the
    /// chain behind it.
    proof fn lemma_entries(&self)
        ensures
            self.entries().len() > 0,
            self.entries()[0] == (self.key@, self.value),
            self.entries().drop_first() == Self::tail_entries(self.next),
            self.entries() == seq![(self.key@, self.value)] + Self::tail_entries(self.next),
    {
    }
}

impl<K: HashKey, V: Copy> KeyValue<K, V> {
    /// Binds `key` to `val` in the chain `next`: the node that holds `key`
    /// takes the new value in place, or, where no node holds it, a new node
    /// is linked behind the last one. Returns the value that was bound before.
    fn upsert_tail(next: &mut Option<Box<KeyValue<K, V>>>, key: K, val: V) -> (old_val: Option<V>)
        ensures
            Self::tail_entries(*final(next)) == chain_put(
                Self::tail_entries(*old(next)),
                key@,
                val,
            ),
            old_val == chain_get(Self::tail_entries(*old(next)), key@),
        decreases *old(next),
    {
        match next.take() {
            None => {
                let node = KeyValue::new(key, val);
                *next = Some(Box::new(node));
                None
            },
            Some(mut node) => {
                let ghost before = node.entries();
                proof {
                    node.lemma_entries();
                }
                let old_val = if node.key.same_key(&key) {
                    let old_val = node.value;
                    node.value = val;
                    Some(old_val)
                } else {
                    let old_val = Self::upsert_tail(&mut node.next, key, val);
                    proof {
                        lemma_chain_step(before, key@, val);
                    }
                    old_val
                };
                *next = Some(node);
                old_val
            },
        }
    }

    /// Unlinks the node that holds `key` from the chain `next`, so that its
    /// predecessor is followed by its successor. Returns the value it held.
    fn remove_tail(next: &mut Option<Box<KeyValue<K, V>>>, key: &K) -> (old_val: Option<V>)
        ensures
            Self::tail_entries(*final(next)) == chain_cut(Self::tail_entries(*old(next)), key@),
            old_val == chain_get(Self::tail_entries(*old(next)), key@),
        decreases *old(next),
    {
        match next.take() {
            None => None,
            Some(mut node) => {
                let ghost before = node.entries();
                proof {
                    node.lemma_entries();
                }
                if node.key.same_key(key) {
                    let return_val = node.value;
                    *next = node.next;
                    Some(return_val)
                } else {
                    let old_val = Self::remove_tail(&mut node.next, key);
                    proof {
                        lemma_chain_step(before, key@, node.value);
                    }
                    *next = Some(node);
                    old_val
                }
            },
        }
    }
}

/// A map with a fixed number of buckets. A key's hash selects its bucket, and
/// the keys of one bucket form a singly linked chain.
///
/// The model of a map is a `Map` from key models to values. `chain` gives
/// the chain of each bucket, of which the model is made.
pub struct CustomHashMap<K, V> {
    curr_size: usize,
    arr: Vec<Option<KeyValue<K, V>>>,
}

impl<K: HashKey, V> View for CustomHashMap<K, V> {
    type V = Map<K::V, V>;

    closed spec fn view(&self) -> Map<K::V, V> {
        Self::model_of(self.arr@)
    }
}

impl<K: HashKey, V> CustomHashMap<K, V> {
    /// The entries of the chain in bucket `bucket` of `arr`.
    spec fn chain_of(arr: Seq<Option<KeyValue<K, V>>>, bucket: int) -> Seq<(K::V, V)> {
        match arr[bucket] {
            None => Seq::empty(),
            Some(head) => head.entries(),
        }
    }

    /// What the buckets `arr` bind: each key what the chain of its bucket
    /// gives for it.
    spec fn model_of(arr: Seq<Option<KeyValue<K, V>>>) -> Map<K::V, V> {
        Map::new(
            |k: K::V| chain_get(Self::chain_of(arr, bucket_of::<K>(k)), k) is Some,
            |k: K::V| chain_get(Self::chain_of(arr, bucket_of::<K>(k)), k).unwrap(),
        )
    }

    /// The chain of bucket `bucket`: its entries in the order of the links,
    /// the one in the bucket's slot first.
    pub closed spec fn chain(&self, bucket: int) -> Seq<(K::V, V)> {
        Self::chain_of(self.arr@, bucket)
    }

    /// Every chain of `arr` is without repeated keys and holds only keys of
    /// its bucket.
    spec fn in_order(arr: Seq<Option<KeyValue<K, V>>>) -> bool {
        &&& forall|b: int|
            0 <= b < DEFAULT_MAX_SIZE ==> chain_distinct(#[trigger] Self::chain_of(arr, b))
        &&& forall|b: int, i: int|
            0 <= b < DEFAULT_MAX_SIZE && 0 <= i < Self::chain_of(arr, b).len() ==> bucket_of::<K>(
                (#[trigger] Self::chain_of(arr, b)[i]).0,
            ) == b
    }

    /// The invariant of the map: it has all its buckets, no key occurs twice
    /// in a chain, every key lives in the bucket that its hash selects, and
    /// the stored size is the number of keys bound.
    pub closed spec fn wf(&self) -> bool {
        &&& self.arr@.len() == DEFAULT_MAX_SIZE
        &&& Self::in_order(self.arr@)
        &&& self@.dom().finite()
        &&& self.curr_size == self@.len()
    }

    /// What a well-formed map binds is what its chains hold: a key is bound
    /// to the value that the chain of its bucket gives for it, finitely many
    /// keys are bound, no key occurs twice in a chain, and every key lives in
    /// the bucket that its hash selects.
    pub proof fn lemma_wf_model(&self)
        requires
            self.wf(),
        ensures
            self@.dom().finite(),
            self@.len() <= usize::MAX,
            forall|k: K::V| #[trigger] self@.get(k) == chain_get(self.chain(bucket_of::<K>(k)), k),
            forall|b: int| 0 <= b < DEFAULT_MAX_SIZE ==> chain_distinct(#[trigger] self.chain(b)),
            forall|b: int, i: int|
                0 <= b < DEFAULT_MAX_SIZE && 0 <= i < self.chain(b).len() ==> bucket_of::<K>(
                    (#[trigger] self.chain(b)[i]).0,
                ) == b,
    {
    }

    /// A well-formed map binds finitely many keys, and their number fits the
    /// machine's word.
    pub proof fn lemma_wf_finite(&self)
        requires
            self.wf(),
        ensures
            self@.dom().finite(),
            self@.len() <= usize::MAX,
    {
    }

    /// Every key of a chain that took a binding for a key of its bucket
    /// belongs to that bucket.
    proof fn lemma_put_stays_in_bucket(chain: Seq<(K::V, V)>, k: K::V, v: V, bucket: int)
        requires
            bucket_of::<K>(k) == bucket,
            forall|i: int|
                0 <= i < chain.len() ==> bucket_of::<K>((#[trigger] chain[i]).0) == bucket,
        ensures
            forall|i: int|
                0 <= i < chain_put(chain, k, v).len() ==> bucket_of::<K>(
                    (#[trigger] chain_put(chain, k, v)[i]).0,
                ) == bucket,
    {
        lemma_first_match(chain, k);
    }

    /// Every key of a chain that lost an entry still belongs to its bucket.
    proof fn lemma_cut_stays_in_bucket(chain: Seq<(K::V, V)>, k: K::V, bucket: int)
        requires
            forall|i: int|
                0 <= i < chain.len() ==> bucket_of::<K>((#[trigger] chain[i]).0) == bucket,
        ensures
            forall|i: int|
                0 <= i < chain_cut(chain, k).len() ==> bucket_of::<K>(
                    (#[trigger] chain_cut(chain, k)[i]).0,
                ) == bucket,
    {
        lemma_first_match(chain, k);
    }

    /// After the chain of the bucket of `k` took a binding for `k`, the
    /// chains are in order again and the model has that binding; only the
    /// stored size may still be behind.
    proof fn lemma_after_put(&self, before: Self, k: K::V, v: V)
        requires
            before.wf(),
            self.arr@.len() == DEFAULT_MAX_SIZE,
            self.chain(bucket_of::<K>(k)) == chain_put(before.chain(bucket_of::<K>(k)), k, v),
            forall|b: int|
                0 <= b < DEFAULT_MAX_SIZE && b != bucket_of::<K>(k) ==> #[trigger] self.chain(b)
                    == before.chain(b),
        ensures
            self@ == before@.insert(k, v),
            self@.dom().finite(),
            self@.len() == (if before@.contains_key(k) {
                before@.len()
            } else {
                before@.len() + 1
            }),
            before@.get(k) == chain_get(before.chain(bucket_of::<K>(k)), k),
            Self::in_order(self.arr@),
    {
        let bucket = bucket_of::<K>(k);
        lemma_chain_put(before.chain(bucket), k, v);
        Self::lemma_put_stays_in_bucket(before.chain(bucket), k, v, bucket);
        assert forall|other: K::V| #[trigger]
            self@.contains_key(other) == before@.insert(k, v).contains_key(other) && (
            self@.contains_key(other) ==> self@[other] == before@.insert(k, v)[other]) by {
            if bucket_of::<K>(other) != bucket {
                assert(self.chain(bucket_of::<K>(other)) == before.chain(bucket_of::<K>(other)));
            }
        }
        assert forall|b: int| 0 <= b < DEFAULT_MAX_SIZE implies chain_distinct(
            #[trigger] Self::chain_of(self.arr@, b),
        ) by {
            if b != bucket {
                assert(self.chain(b) == before.chain(b));
            }
        }
        assert forall|b: int, i: int|
            0 <= b < DEFAULT_MAX_SIZE && 0 <= i < Self::chain_of(
                self.arr@,
                b,
            ).len() implies bucket_of::<K>((#[trigger] Self::chain_of(self.arr@, b)[i]).0) == b by {
            if b != bucket {
                assert(self.chain(b) == before.chain(b));
            }
        }
    }

    /// After the chain of the bucket of `k` lost the binding of `k`, the
    /// chains are in order again and the model lacks that binding; only the
    /// stored size may still be ahead.
    proof fn lemma_after_cut(&self, before: Self, k: K::V)
        requires
            before.wf(),
            self.arr@.len() == DEFAULT_MAX_SIZE,
            self.chain(bucket_of::<K>(k)) == chain_cut(before.chain(bucket_of::<K>(k)), k),
            forall|b: int|
                0 <= b < DEFAULT_MAX_SIZE && b != bucket_of::<K>(k) ==> #[trigger] self.chain(b)
                    == before.chain(b),
        ensures
            self@ == before@.remove(k),
            self@.dom().finite(),
            self@.len() == (if before@.contains_key(k) {
                before@.len() - 1
            } else {
                before@.len() as int
            }),
            before@.get(k) == chain_get(before.chain(bucket_of::<K>(k)), k),
            Self::in_order(self.arr@),
    {
        let bucket = bucket_of::<K>(k);
        lemma_chain_cut(before.chain(bucket), k);
        Self::lemma_cut_stays_in_bucket(before.chain(bucket), k, bucket);
        assert forall|other: K::V| #[trigger]
            self@.contains_key(other) == before@.remove(k).contains_key(other) && (
            self@.contains_key(other) ==> self@[other] == before@.remove(k)[other]) by {
            if bucket_of::<K>(other) != bucket {
                assert(self.chain(bucket_of::<K>(other)) == before.chain(bucket_of::<K>(other)));
            }
        }
        assert(self@ =~= before@.remove(k));
        assert forall|b: int| 0 <= b < DEFAULT_MAX_SIZE implies chain_distinct(
            #[trigger] Self::chain_of(self.arr@, b),
        ) by {
            if b != bucket {
                assert(self.chain(b) == before.chain(b));
            }
        }
        assert forall|b: int, i: int|
            0 <= b < DEFAULT_MAX_SIZE && 0 <= i < Self::chain_of(
                self.arr@,
                b,
            ).len() implies bucket_of::<K>((#[trigger] Self::chain_of(self.arr@, b)[i]).0) == b by {
            if b != bucket {
                assert(self.chain(b) == before.chain(b));
            }
        }
    }
}

impl<K: HashKey, V: Copy> CustomHashMap<K, V> {
    /// An empty map: every bucket is empty.
    pub fn new() -> (map: CustomHashMap<K, V>)
        ensures
            map.wf(),
            map@ == Map::<K::V, V>::empty(),
            forall|b: int|
                0 <= b < DEFAULT_MAX_SIZE ==> #[trigger] map.chain(b) == Seq::<(K::V, V)>::empty(),
    {
        let mut arr: Vec<Option<KeyValue<K, V>>> = Vec::new();
        let mut i: u64 = 0;
        while i < DEFAULT_MAX_SIZE
            invariant
                i <= DEFAULT_MAX_SIZE,
                arr@.len() == i,
                forall|j: int| 0 <= j < arr@.len() ==> arr@[j] is None,
            decreases DEFAULT_MAX_SIZE - i,
        {
            arr.push(None);
            i = i + 1;
        }
        let map = CustomHashMap { curr_size: 0, arr };
        proof {
            assert(map@ =~= Map::<K::V, V>::empty());
        }
        map
    }

    /// Binds `key` to `val`: the hash of `key` selects a bucket; an empty
    /// bucket gets a chain of one node; in an occupied one the node that
    /// holds `key` takes the new value in place, or, where there is none, a
    /// new node is linked behind the last one. Returns the value that `key`
    /// was bound to before, if it was bound.
    pub fn insert(&mut self, key: K, val: V) -> (old_val: Option<V>)
        requires
            old(self).wf(),
            old(self)@.len() < usize::MAX,
        ensures
            final(self).wf(),
            final(self)@ == old(self)@.insert(key@, val),
            old_val == old(self)@.get(key@),
            final(self).chain(bucket_of::<K>(key@)) == chain_put(
                old(self).chain(bucket_of::<K>(key@)),
                key@,
                val,
            ),
            forall|b: int|
                0 <= b < DEFAULT_MAX_SIZE && b != bucket_of::<K>(key@)
                    ==> #[trigger] final(self).chain(b) == old(self).chain(b),
    {
        let hash_val: u64 = hash_key(&key);
        let position: u64 = hash_val % DEFAULT_MAX_SIZE;
        if self.arr[position as usize].is_some() {
            self.update_or_link_new_val(key, val, position as usize)
        } else {
            self.insert_new_value(key, val, position as usize);
            None
        }
    }

    /// Starts the chain of the empty bucket `position` with a node for `key`.
    fn insert_new_value(&mut self, key: K, val: V, position: usize)
        requires
            old(self).wf(),
            old(self)@.len() < usize::MAX,
            position == bucket_of::<K>(key@),
            old(self).arr@[position as int] is None,
        ensures
            final(self).wf(),
            final(self)@ == old(self)@.insert(key@, val),
            old(self)@.get(key@) is None,
            final(self).chain(position as int) == chain_put(
                old(self).chain(position as int),
                key@,
                val,
            ),
            forall|b: int|
                0 <= b < DEFAULT_MAX_SIZE && b != position ==> #[trigger] final(self).chain(b)
                    == old(self).chain(b),
    {
        let new_entry = KeyValue::new(key, val);
        self.arr[position] = Some(new_entry);
        proof {
            self.lemma_after_put(*old(self), key@, val);
        }
        self.curr_size += 1;
    }

    /// Binds `key` in the chain of the occupied bucket `position`: the node
    /// that holds `key` takes the new value, or a new node is linked behind
    /// the last one.
    fn update_or_link_new_val(&mut self, key: K, val: V, position: usize) -> (old_val: Option<V>)
        requires
            old(self).wf(),
            old(self)@.len() < usize::MAX,
            position == bucket_of::<K>(key@),
            old(self).arr@[position as int] is Some,
        ensures
            final(self).wf(),
            final(self)@ == old(self)@.insert(key@, val),
            old_val == old(self)@.get(key@),
            final(self).chain(position as int) == chain_put(
                old(self).chain(position as int),
                key@,
                val,
            ),
            forall|b: int|
                0 <= b < DEFAULT_MAX_SIZE && b != position ==> #[trigger] final(self).chain(b)
                    == old(self).chain(b),
    {
        let mut key_val: KeyValue<K, V> = self.arr[position].take().unwrap();
        let ghost before = key_val.entries();
        proof {
            key_val.lemma_entries();
        }
        let old_val = if key_val.key.same_key(&key) {
            let old_val = key_val.value;
            key_val.value = val;
            proof {
                lemma_chain_head(before, key@, val);
            }
            Some(old_val)
        } else {
            let old_val = KeyValue::upsert_tail(&mut key_val.next, key, val);
            proof {
                lemma_chain_step(before, key@, val);
            }
            old_val
        };
        self.arr[position] = Some(key_val);
        proof {
            self.lemma_after_put(*old(self), key@, val);
        }
        if old_val.is_none() {
            self.curr_size += 1;
        }
        old_val
    }

    /// The value that `key` is bound to, if it is bound: the value of the
    /// first node with that key in the chain of its bucket.
    pub fn get(&self, key: K) -> (val: Option<V>)
        requires
            self.wf(),
        ensures
            val == self@.get(key@),
            val == chain_get(self.chain(bucket_of::<K>(key@)), key@),
    {
        let hash_val: u64 = hash_key(&key);
        let position: u64 = hash_val % DEFAULT_MAX_SIZE;
        match &self.arr[position as usize] {
            Some(_) => self.check_list_for_key(key, position as usize),
            None => None,
        }
    }

    /// Walks the chain of the occupied bucket `position`; the first node that
    /// holds `key` gives the value.
    fn check_list_for_key(&self, key: K, position: usize) -> (val: Option<V>)
        requires
            self.wf(),
            position == bucket_of::<K>(key@),
            self.arr@[position as int] is Some,
        ensures
            val == self@.get(key@),
            val == chain_get(self.chain(position as int), key@),
    {
        let mut current: &KeyValue<K, V> = self.arr[position].as_ref().unwrap();
        proof {
            current.lemma_entries();
            if current.key@ != key@ {
                lemma_chain_step(current.entries(), key@, current.value);
            }
        }
        if current.key.same_key(&key) {
            return Some(current.value);
        }
        loop
            invariant
                current.key@ != key@,
                chain_get(self.chain(position as int), key@) == chain_get(
                    KeyValue::tail_entries(current.next),
                    key@,
                ),
                self@.get(key@) == chain_get(self.chain(position as int), key@),
            decreases current,
        {
            match current.next.as_ref() {
                None => {
                    return None;
                },
                Some(node) => {
                    proof {
                        node.lemma_entries();
                        if node.key@ != key@ {
                            lemma_chain_step(node.entries(), key@, node.value);
                        }
                    }
                    if node.key.same_key(&key) {
                        return Some(node.value);
                    }
                    current = node;
                },
            }
        }
    }

    /// Unbinds `key`: the node that holds it is unlinked from the chain of
    /// its bucket. Returns the value that `key` was bound to, if it was
    /// bound.
    pub fn remove(&mut self, key: K) -> (old_val: Option<V>)
        requires
            old(self).wf(),
        ensures
            final(self).wf(),
            final(self)@ == old(self)@.remove(key@),
            old_val == old(self)@.get(key@),
            final(self).chain(bucket_of::<K>(key@)) == chain_cut(
                old(self).chain(bucket_of::<K>(key@)),
                key@,
            ),
            forall|b: int|
                0 <= b < DEFAULT_MAX_SIZE && b != bucket_of::<K>(key@)
                    ==> #[trigger] final(self).chain(b) == old(self).chain(b),
    {
        let hash_val: u64 = hash_key(&key);
        let position: u64 = hash_val % DEFAULT_MAX_SIZE;
        if self.arr[position as usize].is_some() {
            self.check_item_in_list_and_remove(key, position as usize)
        } else {
            None
        }
    }

    /// Unlinks the node that holds `key` from the chain of the occupied
    /// bucket `position`. Where that node heads the chain, its successor is
    /// promoted into the bucket.
    fn check_item_in_list_and_remove(&mut self, key: K, position: usize) -> (old_val: Option<V>)
        requires
            old(self).wf(),
            position == bucket_of::<K>(key@),
            old(self).arr@[position as int] is Some,
        ensures
            final(self).wf(),
            final(self)@ == old(self)@.remove(key@),
            old_val == old(self)@.get(key@),
            final(self).chain(position as int) == chain_cut(old(self).chain(position as int), key@),
            forall|b: int|
                0 <= b < DEFAULT_MAX_SIZE && b != position ==> #[trigger] final(self).chain(b)
                    == old(self).chain(b),
    {
        let mut current: KeyValue<K, V> = self.arr[position].take().unwrap();
        let ghost before = current.entries();
        proof {
            current.lemma_entries();
        }
        if current.key.same_key(&key) {
            let return_val = current.value;
            match current.next {
                Some(node) => {
                    self.arr[position] = Some(*node);
                },
                None => {
                    self.arr[position] = None;
                },
            }
            proof {
                self.lemma_after_cut(*old(self), key@);
            }
            self.curr_size -= 1;
            return Some(return_val);
        }
        let old_val = KeyValue::remove_tail(&mut current.next, &key);
        proof {
            lemma_chain_step(before, key@, current.value);
        }
        self.arr[position] = Some(current);
        proof {
            self.lemma_after_cut(*old(self), key@);
        }
        if old_val.is_some() {
            self.curr_size -= 1;
        }
        old_val
    }

    /// Unbinds every key: all buckets are empty again.
    pub fn clear(&mut self)
        ensures
            final(self).wf(),
            final(self)@ == Map::<K::V, V>::empty(),
            final(self)@.len() == 0,
            forall|k: K::V| !final(self)@.contains_key(k),
            forall|b: int|
                0 <= b < DEFAULT_MAX_SIZE ==> #[trigger] final(self).chain(b) == Seq::<
                    (K::V, V),
                >::empty(),
    {
        let fresh: CustomHashMap<K, V> = CustomHashMap::new();
        *self = fresh;
    }

    /// The number of keys bound.
    pub fn len(&self) -> (size: usize)
        requires
            self.wf(),
        ensures
            size == self@.len(),
    {
        self.curr_size
    }

    /// Whether no key is bound.
    pub fn is_empty(&self) -> (empty: bool)
        requires
            self.wf(),
        ensures
            empty == (self@.len() == 0),
            empty == (self@ == Map::<K::V, V>::empty()),
    {
        proof {
            if self@.len() == 0 {
                assert(self@ =~= Map::<K::V, V>::empty());
            }
        }
        if self.len() == 0 {
            return true;
        }
        false
    }
}

/// One step in the history of a map: a key is bound, or a key is unbound.
pub enum MapOp<K, V> {
    Insert(K, V),
    Remove(K),
}

/// The model of a map after `op`: what `insert` and `remove` do to it.
pub open spec fn applied<K, V>(m: Map<K, V>, op: MapOp<K, V>) -> Map<K, V> {
    match op {
        MapOp::Insert(k, v) => m.insert(k, v),
        MapOp::Remove(k) => m.remove(k),
    }
}

/// The model of a map that was empty and then went through `ops`, first to
/// last.
pub open spec fn replayed<K, V>(ops: Seq<MapOp<K, V>>) -> Map<K, V>
    decreases ops.len(),
{
    if ops.len() == 0 {
        Map::empty()
    } else {
        applied(replayed(ops.drop_last()), ops.last())
    }
}

/// What the history `ops` leaves of `k`: the value of the latest insertion
/// of `k` that no removal of `k` follows, if there is one.
pub open spec fn latest_binding<K, V>(ops: Seq<MapOp<K, V>>, k: K) -> Option<V>
    decreases ops.len(),
{
    if ops.len() == 0 {
        None
    } else {
        match ops.last() {
            MapOp::Insert(k2, v) => if k2 == k {
                Some(v)
            } else {
                latest_binding(ops.drop_last(), k)
            },
            MapOp::Remove(k2) => if k2 == k {
                None
            } else {
                latest_binding(ops.drop_last(), k)
            },
        }
    }
}

/// After any history of insertions and removals on an empty map, and so
/// after every prefix of one, a lookup of `k` gives the value of the latest
/// insertion of `k` that no removal of `k` follows, and nothing where `k` was
/// never inserted or was removed last.
pub proof fn lemma_get_follows_history<K, V>(ops: Seq<MapOp<K, V>>, k: K)
    ensures
        replayed(ops).get(k) == latest_binding(ops, k),
        forall|n: int|
            0 <= n <= ops.len() ==> replayed(#[trigger] ops.take(n)).get(k) == latest_binding(
                ops.take(n),
                k,
            ),
    decreases ops.len(),
{
    if ops.len() > 0 {
        lemma_get_follows_history(ops.drop_last(), k);
    }
    assert forall|n: int| 0 <= n <= ops.len() implies replayed(#[trigger] ops.take(n)).get(k)
        == latest_binding(ops.take(n), k) by {
        if n == ops.len() {
            assert(ops.take(n) =~= ops);
        } else {
            assert(ops.take(n) =~= ops.drop_last().take(n));
        }
    }
}

} // verus!
