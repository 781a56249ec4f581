//! A map from strings to values that remembers the order in which its keys
//! first arrived, and the pure functions on sequences of pairs that say what
//! it holds.

use vstd::prelude::*;
use vstd::hash_map::StringHashMap;

verus! {

/// Whether some pair of `pairs` has the key `key`.
pub open spec fn has_key<V>(pairs: Seq<(Seq<char>, V)>, key: Seq<char>) -> bool {
    exists|i: int| 0 <= i < pairs.len() && (#[trigger] pairs[i]).0 == key
}

/// A place in `pairs` at which `key` stands, if it stands anywhere.
pub open spec fn slot_of<V>(pairs: Seq<(Seq<char>, V)>, key: Seq<char>) -> int {
    choose|i: int| 0 <= i < pairs.len() && (#[trigger] pairs[i]).0 == key
}

/// No key stands at two places of `pairs`.
pub open spec fn distinct_keys<V>(pairs: Seq<(Seq<char>, V)>) -> bool {
    forall|i: int, j: int|
        0 <= i < j < pairs.len() ==> (#[trigger] pairs[i]).0 != (#[trigger] pairs[j]).0
}

/// The keys of `pairs`, as a set.
pub open spec fn key_set<V>(pairs: Seq<(Seq<char>, V)>) -> Set<Seq<char>> {
    Set::new(|key: Seq<char>| has_key(pairs, key))
}

/// `pairs` with `value` filed under `key`: a key that is present keeps its
/// place and takes the new value, a new key goes to the end.
pub open spec fn put<V>(pairs: Seq<(Seq<char>, V)>, key: Seq<char>, value: V) -> Seq<
    (Seq<char>, V),
> {
    if has_key(pairs, key) {
        pairs.update(slot_of(pairs, key), (key, value))
    } else {
        pairs.push((key, value))
    }
}

/// What is left of `pairs` when they are filed one after the other: each key
/// once, at the place of its first arrival, with the value of its last.
pub open spec fn compact<V>(pairs: Seq<(Seq<char>, V)>) -> Seq<(Seq<char>, V)>
    decreases pairs.len(),
{
    if pairs.len() == 0 {
        Seq::empty()
    } else {
        put(compact(pairs.drop_last()), pairs.last().0, pairs.last().1)
    }
}

/// The pairs of `pairs` whose key is not in `keys`, in their order.
pub open spec fn without<V>(pairs: Seq<(Seq<char>, V)>, keys: Set<Seq<char>>) -> Seq<
    (Seq<char>, V),
>
    decreases pairs.len(),
{
    if pairs.len() == 0 {
        Seq::empty()
    } else if keys.contains(pairs.last().0) {
        without(pairs.drop_last(), keys)
    } else {
        without(pairs.drop_last(), keys).push(pairs.last())
    }
}

/// The pairs that a vector of keyed items stands for.
pub open spec fn pairs_of<V>(items: Seq<(String, V)>) -> Seq<(Seq<char>, V)> {
    items.map_values(|item: (String, V)| (item.0@, item.1))
}

/// Filing a pair keeps the keys distinct, adds its key to the key set, and
/// leaves every other key's value as it was.
pub proof fn lemma_put<V>(pairs: Seq<(Seq<char>, V)>, key: Seq<char>, value: V)
    requires
        distinct_keys(pairs),
    ensures
        distinct_keys(put(pairs, key, value)),
        forall|k: Seq<char>| has_key(put(pairs, key, value), k) <==> k == key || has_key(pairs, k),
        has_key(put(pairs, key, value), key),
        put(pairs, key, value)[slot_of(put(pairs, key, value), key)].1 == value,
        forall|k: Seq<char>|
            k != key && has_key(pairs, k) ==> put(pairs, key, value)[slot_of(
                put(pairs, key, value),
                k,
            )] == pairs[slot_of(pairs, k)],
{
    let after = put(pairs, key, value);
    if has_key(pairs, key) {
        let slot = slot_of(pairs, key);
        assert(after[slot].0 == key);
        assert forall|k: Seq<char>| has_key(after, k) implies k == key || has_key(pairs, k) by {
            let i = slot_of(after, k);
            if i != slot {
                assert(pairs[i].0 == k);
            }
        }
        assert forall|k: Seq<char>| k == key || has_key(pairs, k) implies has_key(after, k) by {
            if k != key {
                let i = slot_of(pairs, k);
                assert(after[i].0 == k);
            }
        }
        assert forall|k: Seq<char>| k != key && has_key(pairs, k) implies after[slot_of(after, k)]
            == pairs[slot_of(pairs, k)] by {
            let i = slot_of(pairs, k);
            assert(after[i].0 == k);
            let j = slot_of(after, k);
            assert(after[j].0 == k);
            assert(pairs[j].0 == k);
        }
        let at = slot_of(after, key);
        assert(after[at].0 == key);
        assert(pairs[at].0 == key || at == slot);
    } else {
        let n = pairs.len() as int;
        assert(after[n].0 == key);
        assert forall|k: Seq<char>| has_key(after, k) implies k == key || has_key(pairs, k) by {
            let i = slot_of(after, k);
            if i != n {
                assert(pairs[i].0 == k);
            }
        }
        assert forall|k: Seq<char>| k == key || has_key(pairs, k) implies has_key(after, k) by {
            if k != key {
                let i = slot_of(pairs, k);
                assert(after[i].0 == k);
            }
        }
        assert forall|k: Seq<char>| k != key && has_key(pairs, k) implies after[slot_of(after, k)]
            == pairs[slot_of(pairs, k)] by {
            let i = slot_of(pairs, k);
            assert(after[i].0 == k);
            let j = slot_of(after, k);
            assert(after[j].0 == k);
            assert(pairs[j].0 == k);
        }
        let at = slot_of(after, key);
        assert(after[at].0 == key);
        if at != n {
            assert(pairs[at].0 == key);
        }
    }
}

/// Filed pairs have distinct keys, and exactly the keys that arrived.
pub proof fn lemma_compact_keys<V>(pairs: Seq<(Seq<char>, V)>)
    ensures
        distinct_keys(compact(pairs)),
        forall|k: Seq<char>| has_key(compact(pairs), k) <==> has_key(pairs, k),
    decreases pairs.len(),
{
    if pairs.len() > 0 {
        let front = pairs.drop_last();
        let last = pairs.last();
        lemma_compact_keys(front);
        lemma_put(compact(front), last.0, last.1);
        let done = put(compact(front), last.0, last.1);
        assert(compact(pairs) == done);
        assert forall|k: Seq<char>| has_key(pairs, k) implies has_key(done, k) by {
            let i = slot_of(pairs, k);
            assert(pairs[i].0 == k);
            if i < front.len() {
                assert(front[i].0 == k);
                assert(has_key(front, k));
                assert(has_key(compact(front), k));
            }
        }
        assert forall|k: Seq<char>| has_key(done, k) implies has_key(pairs, k) by {
            if k == last.0 {
                assert(pairs[pairs.len() - 1].0 == k);
            } else {
                assert(has_key(compact(front), k));
                assert(has_key(front, k));
                let i = slot_of(front, k);
                assert(front[i].0 == k);
                assert(pairs[i].0 == k);
            }
        }
    }
}

/// Each filed pair carries the value of the last pair that arrived under its
/// key.
pub proof fn lemma_compact_value<V>(pairs: Seq<(Seq<char>, V)>, i: int)
    requires
        0 <= i < compact(pairs).len(),
    ensures
        exists|j: int|
            0 <= j < pairs.len() && #[trigger] pairs[j] == compact(pairs)[i] && forall|k: int|
                j < k < pairs.len() ==> (#[trigger] pairs[k]).0 != pairs[j].0,
    decreases pairs.len(),
{
    let front = pairs.drop_last();
    let last = pairs.last();
    let n = pairs.len() - 1;
    lemma_compact_keys(front);
    lemma_put(compact(front), last.0, last.1);
    let done = compact(pairs);
    if done[i].0 == last.0 {
        assert(done[slot_of(done, last.0)].0 == last.0);
        assert(done[i] == pairs[n]);
    } else {
        let key = done[i].0;
        assert(has_key(compact(front), key));
        let at = slot_of(compact(front), key);
        assert(done[slot_of(done, key)].0 == key);
        assert(done[i] == compact(front)[at]);
        lemma_compact_value(front, at);
        let j = choose|j: int|
            0 <= j < front.len() && #[trigger] front[j] == compact(front)[at] && forall|k: int|
                j < k < front.len() ==> (#[trigger] front[k]).0 != front[j].0;
        assert(pairs[j] == done[i]);
        assert forall|k: int| j < k < pairs.len() implies (#[trigger] pairs[k]).0
            != pairs[j].0 by {
            if k < n {
                assert(front[k].0 != front[j].0);
            }
        }
    }
}

/// What `without` keeps: pairs of the sequence, none with a key of the set,
/// and every pair whose key is outside the set.
pub proof fn lemma_without<V>(pairs: Seq<(Seq<char>, V)>, keys: Set<Seq<char>>)
    ensures
        forall|i: int|
            0 <= i < without(pairs, keys).len() ==> !keys.contains(
                (#[trigger] without(pairs, keys)[i]).0,
            ) && pairs.contains(without(pairs, keys)[i]),
        forall|j: int|
            0 <= j < pairs.len() && !keys.contains((#[trigger] pairs[j]).0) ==> without(
                pairs,
                keys,
            ).contains(pairs[j]),
        distinct_keys(pairs) ==> distinct_keys(without(pairs, keys)),
        without(pairs, keys).len() <= pairs.len(),
    decreases pairs.len(),
{
    if pairs.len() > 0 {
        let front = pairs.drop_last();
        let last = pairs.last();
        let n = pairs.len() - 1;
        lemma_without(front, keys);
        let kept = without(pairs, keys);
        let before = without(front, keys);
        assert forall|i: int| 0 <= i < kept.len() implies !keys.contains((#[trigger] kept[i]).0)
            && pairs.contains(kept[i]) by {
            if i < before.len() {
                assert(kept[i] == before[i]);
                let j = choose|j: int| 0 <= j < front.len() && front[j] == before[i];
                assert(pairs[j] == kept[i]);
            } else {
                assert(pairs[n] == kept[i]);
            }
        }
        assert forall|j: int|
            0 <= j < pairs.len() && !keys.contains((#[trigger] pairs[j]).0) implies kept.contains(
            pairs[j],
        ) by {
            if j < n {
                assert(front[j] == pairs[j]);
                let i = choose|i: int| 0 <= i < before.len() && before[i] == front[j];
                assert(kept[i] == pairs[j]);
            } else {
                assert(kept[kept.len() - 1] == pairs[j]);
            }
        }
        if distinct_keys(pairs) {
            assert(distinct_keys(front)) by {
                assert forall|i: int, j: int| 0 <= i < j < front.len() implies (
                #[trigger] front[i]).0 != (#[trigger] front[j]).0 by {
                    assert(pairs[i].0 != pairs[j].0);
                }
            }
            assert forall|i: int, j: int| 0 <= i < j < kept.len() implies (#[trigger] kept[i]).0
                != (#[trigger] kept[j]).0 by {
                if j < before.len() {
                    assert(before[i].0 != before[j].0);
                } else {
                    let a = choose|a: int| 0 <= a < front.len() && front[a] == before[i];
                    assert(pairs[a].0 != pairs[n].0);
                }
            }
        }
    }
}

/// A map from strings to values that keeps its keys in the order of their
/// first arrival. A key that arrives again keeps its place and takes the new
/// value.
pub struct OrderedMap<V> {
    index: StringHashMap<usize>,
    items: Vec<(String, V)>,
}

impl<V> View for OrderedMap<V> {
    type V = Seq<(Seq<char>, V)>;

    closed spec fn view(&self) -> Seq<(Seq<char>, V)> {
        pairs_of(self.items@)
    }
}

impl<V> OrderedMap<V> {
    /// The index leads from each key to the place where it stands.
    #[verifier::type_invariant]
    spec fn indexed(&self) -> bool {
        &&& forall|i: int|
            0 <= i < self.items@.len() ==> self.index@.contains_key(
                (#[trigger] self.items@[i]).0@,
            ) && self.index@[self.items@[i].0@] == i
        &&& forall|k: Seq<char>| #[trigger]
            self.index@.contains_key(k) ==> self.index@[k] < self.items@.len()
                && self.items@[self.index@[k] as int].0@ == k
    }

    /// An empty map.
    pub fn new() -> (r: Self)
        ensures
            r@ == Seq::<(Seq<char>, V)>::empty(),
            distinct_keys(r@),
    {
        let r = OrderedMap { index: StringHashMap::new(), items: Vec::new() };
        assert(r@ =~= Seq::<(Seq<char>, V)>::empty());
        r
    }

    /// The number of keys.
    pub fn len(&self) -> (r: usize)
        ensures
            r == self@.len(),
    {
        self.items.len()
    }

    /// Whether `key` is present.
    pub fn contains_key(&self, key: &str) -> (r: bool)
        ensures
            r == has_key(self@, key@),
    {
        proof {
            use_type_invariant(self);
        }
        let r = self.index.contains_key(key);
        proof {
            if r {
                let slot = self.index@[key@] as int;
                assert(self@[slot].0 == key@);
            } else if has_key(self@, key@) {
                let i = slot_of(self@, key@);
                assert(self.items@[i].0@ == key@);
            }
        }
        r
    }

    /// Files `value` under `key`.
    pub fn insert(self, key: String, value: V) -> (r: Self)
        ensures
            r@ == put(self@, key@, value),
            distinct_keys(r@),
    {
        proof {
            use_type_invariant(&self);
            self.lemma_distinct();
            lemma_put(self@, key@, value);
        }
        let ghost before = self@;
        let ghost old_items = self.items@;
        let OrderedMap { mut index, mut items } = self;
        let found = match index.get(key.as_str()) {
            Some(slot) => Some(*slot),
            None => None,
        };
        match found {
            Some(slot) => {
                proof {
                    assert(before[slot as int].0 == key@);
                    let at = slot_of(before, key@);
                    assert(old_items[at].0@ == key@);
                    assert(at == slot);
                }
                items.set(slot, (key, value));
                let r = OrderedMap { index, items };
                assert(r@ =~= put(before, key@, value));
                r
            },
            None => {
                proof {
                    if has_key(before, key@) {
                        let at = slot_of(before, key@);
                        assert(old_items[at].0@ == key@);
                    }
                }
                let slot = items.len();
                index.insert(key.clone(), slot);
                items.push((key, value));
                let r = OrderedMap { index, items };
                assert(r@ =~= put(before, key@, value));
                r
            },
        }
    }

    /// The pairs of the map, in the order of their keys' first arrival.
    pub fn entries(&self) -> (r: &Vec<(String, V)>)
        ensures
            pairs_of(r@) == self@,
            distinct_keys(self@),
    {
        proof {
            use_type_invariant(self);
            self.lemma_distinct();
        }
        &self.items
    }

    /// Gives the pairs of the map up, in the order of their keys' first
    /// arrival.
    pub fn into_entries(self) -> (r: Vec<(String, V)>)
        ensures
            pairs_of(r@) == self@,
            distinct_keys(self@),
    {
        proof {
            use_type_invariant(&self);
            self.lemma_distinct();
        }
        self.items
    }

    /// An index that leads from each key to its place leaves no key at two
    /// places.
    proof fn lemma_distinct(&self)
        requires
            self.indexed(),
        ensures
            distinct_keys(self@),
    {
        assert forall|i: int, j: int| 0 <= i < j < self@.len() implies (#[trigger] self@[i]).0 != (
        #[trigger] self@[j]).0 by {
            assert(self.index@[self.items@[i].0@] == i);
            assert(self.index@[self.items@[j].0@] == j);
        }
    }
}

} // verus!
