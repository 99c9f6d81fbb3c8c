use vstd::prelude::*;

verus! {

/// Where the entry with key `k` stands in the recency list `s`, if it is
/// resident. In the list of a well-formed cache no key occurs twice, so the
/// position is unique.
pub open spec fn position_of<A, V>(s: Seq<(A, V)>, k: A) -> Option<int> {
    if exists|i: int| 0 <= i < s.len() && s[i].0 == k {
        Some(choose|i: int| 0 <= i < s.len() && s[i].0 == k)
    } else {
        None
    }
}

/// No key occurs twice in the recency list `s`.
pub open spec fn distinct_keys<A, V>(s: Seq<(A, V)>) -> bool {
    forall|i: int, j: int| 0 <= i < s.len() && 0 <= j < s.len() && i != j ==> s[i].0 != s[j].0
}

/// The list `s` after its element at `i` moved to the front: in a recency
/// list, after it became the most recently used one.
pub open spec fn promoted<T>(s: Seq<T>, i: int) -> Seq<T> {
    seq![s[i]] + s.remove(i)
}

/// The recency list after a lookup of `k`: a resident entry is promoted, and
/// a miss changes nothing.
pub open spec fn after_get<A, V>(s: Seq<(A, V)>, k: A) -> Seq<(A, V)> {
    match position_of(s, k) {
        Some(i) => promoted(s, i),
        None => s,
    }
}

/// The recency list after `k` was bound to `v` in a cache that holds at most
/// `capacity` entries: the entry for `k` is the most recent one, the other
/// entries keep their order, and the least recent ones beyond the capacity
/// are gone.
pub open spec fn after_insert<A, V>(s: Seq<(A, V)>, k: A, v: V, capacity: nat) -> Seq<(A, V)> {
    let t = match position_of(s, k) {
        Some(i) => seq![(k, v)] + s.remove(i),
        None => seq![(k, v)] + s,
    };
    if t.len() > capacity {
        t.take(capacity as int)
    } else {
        t
    }
}

/// The recency list after `k` was removed.
pub open spec fn after_remove<A, V>(s: Seq<(A, V)>, k: A) -> Seq<(A, V)> {
    match position_of(s, k) {
        Some(i) => s.remove(i),
        None => s,
    }
}

/// The list `s` with every value replaced by what `f` makes of it.
pub open spec fn with_values<A, V, W>(s: Seq<(A, V)>, f: spec_fn(V) -> W) -> Seq<(A, W)> {
    Seq::new(s.len(), |i: int| (s[i].0, f(s[i].1)))
}

/// Replacing the values of a list without repeated keys goes along with
/// lookups, insertions and removals: it makes no difference whether the
/// values are replaced before or after.
pub proof fn lemma_with_values_commutes<A, V, W>(
    s: Seq<(A, V)>,
    f: spec_fn(V) -> W,
    k: A,
    v: V,
    capacity: nat,
)
    requires
        distinct_keys(s),
    ensures
        distinct_keys(with_values(s, f)),
        position_of(with_values(s, f), k) == position_of(s, k),
        position_of(s, k) matches Some(i) ==> 0 <= i < s.len() && s[i].0 == k && with_values(
            promoted(s, i),
            f,
        ) == promoted(with_values(s, f), i),
        with_values(after_get(s, k), f) == after_get(with_values(s, f), k),
        with_values(after_insert(s, k, v, capacity), f) == after_insert(
            with_values(s, f),
            k,
            f(v),
            capacity,
        ),
        with_values(after_remove(s, k), f) == after_remove(with_values(s, f), k),
{
    let t = with_values(s, f);
    if position_of(s, k) is Some {
        let i = position_of(s, k).unwrap();
        assert(t[i].0 == k);
    }
}

/// The keys of a recency list, in its order.
pub open spec fn keys_of<A, V>(s: Seq<(A, V)>) -> Seq<A> {
    Seq::new(s.len(), |i: int| s[i].0)
}

/// The list `s` without `k`, for a list in which nothing occurs twice.
pub open spec fn without<A>(s: Seq<A>, k: A) -> Seq<A> {
    if s.contains(k) {
        s.remove(s.index_of(k))
    } else {
        s
    }
}

/// The first `capacity` elements of `s`, or all of `s` where it is shorter.
pub open spec fn bounded<A>(s: Seq<A>, capacity: nat) -> Seq<A> {
    if s.len() > capacity {
        s.take(capacity as int)
    } else {
        s
    }
}

/// The distinct keys of `touches`, the one touched last first.
pub open spec fn recency<A>(touches: Seq<A>) -> Seq<A>
    decreases touches.len(),
{
    if touches.len() == 0 {
        Seq::empty()
    } else {
        seq![touches.last()] + without(recency(touches.drop_last()), touches.last())
    }
}

/// One step in the history of a cache: a key is bound, or a key is looked up.
pub enum CacheOp<A, V> {
    Insert(A, V),
    Get(A),
}

/// The recency list of a cache of the given capacity that was empty and then
/// went through `ops`, first to last.
pub open spec fn cache_after<A, V>(ops: Seq<CacheOp<A, V>>, capacity: nat) -> Seq<(A, V)>
    decreases ops.len(),
{
    if ops.len() == 0 {
        Seq::empty()
    } else {
        let before = cache_after(ops.drop_last(), capacity);
        match ops.last() {
            CacheOp::Insert(k, v) => after_insert(before, k, v, capacity),
            CacheOp::Get(k) => after_get(before, k),
        }
    }
}

/// The keys that `ops` touched, in the order of the touches: every key that
/// was inserted, and every key that was looked up while it was resident.
pub open spec fn touches<A, V>(ops: Seq<CacheOp<A, V>>, capacity: nat) -> Seq<A>
    decreases ops.len(),
{
    if ops.len() == 0 {
        Seq::empty()
    } else {
        let earlier = touches(ops.drop_last(), capacity);
        match ops.last() {
            CacheOp::Insert(k, v) => earlier.push(k),
            CacheOp::Get(k) => if position_of(cache_after(ops.drop_last(), capacity), k) is Some {
                earlier.push(k)
            } else {
                earlier
            },
        }
    }
}

/// The distinct keys of a history are distinct.
proof fn lemma_recency_distinct<A>(touched: Seq<A>)
    ensures
        recency(touched).no_duplicates(),
    decreases touched.len(),
{
    if touched.len() > 0 {
        lemma_recency_distinct(touched.drop_last());
    }
}

/// Whether the least recent keys of `m` are cut off before or after `k`
/// moves to the front makes no difference to the keys that stay.
proof fn lemma_bounded_touch<A>(m: Seq<A>, k: A, capacity: nat)
    requires
        m.no_duplicates(),
    ensures
        bounded(seq![k] + without(bounded(m, capacity), k), capacity) == bounded(
            seq![k] + without(m, k),
            capacity,
        ),
{
    let cut = bounded(m, capacity);
    if !cut.contains(k) && m.contains(k) {
        let p = m.index_of(k);
        assert(p >= cut.len()) by {
            if p < cut.len() {
                assert(cut[p] == k);
            }
        }
    }
}

/// The keys of a list without repeated keys are a list without repetitions,
/// and a key stands in both at the same place.
proof fn lemma_keys_distinct<A, V>(s: Seq<(A, V)>, k: A)
    requires
        distinct_keys(s),
    ensures
        keys_of(s).no_duplicates(),
        keys_of(s).contains(k) <==> position_of(s, k) is Some,
        position_of(s, k) matches Some(p) ==> keys_of(s).index_of(k) == p && 0 <= p < s.len()
            && s[p].0 == k,
{
    let keys = keys_of(s);
    if position_of(s, k) is Some {
        let p = position_of(s, k).unwrap();
        assert(keys[p] == k);
    }
}

/// The keys after an insertion: the new key first, then the others, as many
/// as the capacity allows. They are still distinct.
proof fn lemma_keys_after_insert<A, V>(s: Seq<(A, V)>, k: A, v: V, capacity: nat)
    requires
        distinct_keys(s),
        s.len() <= capacity,
    ensures
        keys_of(after_insert(s, k, v, capacity)) == bounded(
            seq![k] + without(keys_of(s), k),
            capacity,
        ),
        distinct_keys(after_insert(s, k, v, capacity)),
        after_insert(s, k, v, capacity).len() <= capacity,
{
    lemma_keys_distinct(s, k);
}

/// After any history of insertions and lookups on an empty cache with room
/// for `capacity` entries, no more than `capacity` entries are resident, and
/// the resident keys are exactly the most recently touched distinct keys, as
/// many as fit, the most recent first.
pub proof fn lemma_residents_are_most_recent<A, V>(ops: Seq<CacheOp<A, V>>, capacity: nat)
    ensures
        cache_after(ops, capacity).len() <= capacity,
        distinct_keys(cache_after(ops, capacity)),
        keys_of(cache_after(ops, capacity)) == bounded(
            recency(touches(ops, capacity)),
            capacity,
        ),
    decreases ops.len(),
{
    if ops.len() != 0 {
        let earlier_ops = ops.drop_last();
        lemma_residents_are_most_recent(earlier_ops, capacity);
        let before = cache_after(earlier_ops, capacity);
        let touched = touches(earlier_ops, capacity);
        let m = recency(touched);
        lemma_recency_distinct(touched);
        match ops.last() {
            CacheOp::Insert(k, v) => {
                lemma_keys_after_insert(before, k, v, capacity);
                lemma_bounded_touch(m, k, capacity);
                assert(touched.push(k).drop_last() =~= touched);
            },
            CacheOp::Get(k) => {
                lemma_keys_distinct(before, k);
                if position_of(before, k) is Some {
                    lemma_bounded_touch(m, k, capacity);
                    assert(touched.push(k).drop_last() =~= touched);
                }
            },
        }
    }
}

} // verus!
