//! The difference between the versions a document lists and the versions a
//! caller already holds.

use vstd::prelude::*;
use crate::ordered::{
    compact, distinct_keys, has_key, key_set, lemma_compact_keys, lemma_compact_value,
    lemma_without, pairs_of, slot_of, without, OrderedMap,
};

verus! {

/// What changed between a known set of versions and a document.
#[derive(Debug)]
pub struct DiffResult {
    /// The versions that the document lists and the caller does not hold, each
    /// with the byte range of its record in the document.
    pub added_versions: Vec<(String, (u32, u32))>,
    /// The versions that the caller holds and the document does not list.
    pub removed_versions: Vec<String>,
}

/// The characters of each string of `items`.
pub open spec fn names_of(items: Seq<String>) -> Seq<Seq<char>> {
    items.map_values(|item: String| item@)
}

/// Each name of `names` as a pair that carries nothing but its key.
pub open spec fn marked(names: Seq<Seq<char>>) -> Seq<(Seq<char>, ())> {
    names.map_values(|name: Seq<char>| (name, ()))
}

/// The key of each pair of `pairs`.
pub open spec fn keys_of<V>(pairs: Seq<(Seq<char>, V)>) -> Seq<Seq<char>> {
    pairs.map_values(|pair: (Seq<char>, V)| pair.0)
}

/// The versions of `entries` that `known` lacks: each once, in the order in
/// which the document first names them, with the range of the record that the
/// document names last.
pub open spec fn added(entries: Seq<(Seq<char>, (u32, u32))>, known: Seq<Seq<char>>) -> Seq<
    (Seq<char>, (u32, u32)),
> {
    without(compact(entries), key_set(marked(known)))
}

/// The versions of `known` that `entries` lack: each once, in the order in
/// which `known` first names them.
pub open spec fn removed(entries: Seq<(Seq<char>, (u32, u32))>, known: Seq<Seq<char>>) -> Seq<
    Seq<char>,
> {
    keys_of(without(compact(marked(known)), key_set(entries)))
}

/// A name is a key of the marked names exactly when it is one of the names.
pub proof fn lemma_marked(names: Seq<Seq<char>>, name: Seq<char>)
    ensures
        has_key(marked(names), name) <==> names.contains(name),
{
    if has_key(marked(names), name) {
        let i = slot_of(marked(names), name);
        assert(names[i] == name);
    }
    if names.contains(name) {
        let i = choose|i: int| 0 <= i < names.len() && names[i] == name;
        assert(marked(names)[i].0 == name);
    }
}

/// Nothing is left of pairs whose keys all lie in the set.
proof fn lemma_without_all<V>(pairs: Seq<(Seq<char>, V)>, keys: Set<Seq<char>>)
    requires
        forall|i: int| 0 <= i < pairs.len() ==> keys.contains((#[trigger] pairs[i]).0),
    ensures
        without(pairs, keys).len() == 0,
    decreases pairs.len(),
{
    if pairs.len() > 0 {
        let front = pairs.drop_last();
        assert forall|i: int| 0 <= i < front.len() implies keys.contains(
            (#[trigger] front[i]).0,
        ) by {
            assert(pairs[i].0 == front[i].0);
        }
        lemma_without_all(front, keys);
        assert(keys.contains(pairs[pairs.len() - 1].0));
    }
}

/// Pairs of which no key lies in the set are all left.
proof fn lemma_without_none<V>(pairs: Seq<(Seq<char>, V)>, keys: Set<Seq<char>>)
    requires
        forall|i: int| 0 <= i < pairs.len() ==> !keys.contains((#[trigger] pairs[i]).0),
    ensures
        without(pairs, keys) == pairs,
    decreases pairs.len(),
{
    if pairs.len() > 0 {
        let front = pairs.drop_last();
        assert forall|i: int| 0 <= i < front.len() implies !keys.contains(
            (#[trigger] front[i]).0,
        ) by {
            assert(pairs[i].0 == front[i].0);
        }
        lemma_without_none(front, keys);
        assert(!keys.contains(pairs[pairs.len() - 1].0));
        assert(front.push(pairs.last()) =~= pairs);
    } else {
        assert(without(pairs, keys) =~= pairs);
    }
}

/// No added version is known, and every added version is listed by the
/// document; every removed version is known, and none is listed by the
/// document. So no version is both added and removed.
pub proof fn lemma_diff_sound(entries: Seq<(Seq<char>, (u32, u32))>, known: Seq<Seq<char>>)
    ensures
        forall|i: int|
            0 <= i < added(entries, known).len() ==> !known.contains(
                (#[trigger] added(entries, known)[i]).0,
            ) && has_key(entries, added(entries, known)[i].0),
        forall|j: int|
            0 <= j < removed(entries, known).len() ==> known.contains(
                #[trigger] removed(entries, known)[j],
            ) && !has_key(entries, removed(entries, known)[j]),
        forall|i: int, j: int|
            0 <= i < added(entries, known).len() && 0 <= j < removed(entries, known).len() ==> (
            #[trigger] added(entries, known)[i]).0 != #[trigger] removed(entries, known)[j],
{
    let listed = compact(entries);
    let held = compact(marked(known));
    lemma_compact_keys(entries);
    lemma_compact_keys(marked(known));
    lemma_without(listed, key_set(marked(known)));
    lemma_without(held, key_set(entries));
    let plus = added(entries, known);
    let minus = removed(entries, known);
    assert forall|i: int| 0 <= i < plus.len() implies !known.contains((#[trigger] plus[i]).0)
        && has_key(entries, plus[i].0) by {
        lemma_marked(known, plus[i].0);
        let at = choose|at: int| 0 <= at < listed.len() && listed[at] == plus[i];
        assert(listed[at].0 == plus[i].0);
        assert(has_key(listed, plus[i].0));
    }
    assert forall|j: int| 0 <= j < minus.len() implies known.contains(#[trigger] minus[j])
        && !has_key(entries, minus[j]) by {
        let kept = without(held, key_set(entries));
        assert(minus[j] == kept[j].0);
        let at = choose|at: int| 0 <= at < held.len() && held[at] == kept[j];
        assert(held[at].0 == minus[j]);
        assert(has_key(held, minus[j]));
        lemma_marked(known, minus[j]);
    }
}

/// Every version that the document lists and that is not known is added, and
/// every known version that the document does not list is removed; no version
/// is added or removed twice.
pub proof fn lemma_diff_complete(entries: Seq<(Seq<char>, (u32, u32))>, known: Seq<Seq<char>>)
    ensures
        forall|key: Seq<char>|
            has_key(entries, key) && !known.contains(key) ==> has_key(added(entries, known), key),
        forall|key: Seq<char>|
            known.contains(key) && !has_key(entries, key) ==> removed(entries, known).contains(
                key,
            ),
        distinct_keys(added(entries, known)),
        removed(entries, known).no_duplicates(),
{
    let listed = compact(entries);
    let held = compact(marked(known));
    lemma_compact_keys(entries);
    lemma_compact_keys(marked(known));
    lemma_without(listed, key_set(marked(known)));
    lemma_without(held, key_set(entries));
    let plus = added(entries, known);
    let kept = without(held, key_set(entries));
    let minus = removed(entries, known);
    assert forall|key: Seq<char>| has_key(entries, key) && !known.contains(key) implies has_key(
        plus,
        key,
    ) by {
        lemma_marked(known, key);
        assert(has_key(listed, key));
        let at = slot_of(listed, key);
        assert(listed[at].0 == key);
        assert(plus.contains(listed[at]));
        let i = choose|i: int| 0 <= i < plus.len() && plus[i] == listed[at];
        assert(plus[i].0 == key);
    }
    assert forall|key: Seq<char>|
        known.contains(key) && !has_key(entries, key) implies minus.contains(key) by {
        lemma_marked(known, key);
        assert(has_key(held, key));
        let at = slot_of(held, key);
        assert(held[at].0 == key);
        assert(kept.contains(held[at]));
        let i = choose|i: int| 0 <= i < kept.len() && kept[i] == held[at];
        assert(minus[i] == key);
    }
    assert forall|i: int, j: int| 0 <= i < minus.len() && 0 <= j < minus.len() && i != j implies minus[i]
        != minus[j] by {
        if i < j {
            assert(kept[i].0 != kept[j].0);
        } else {
            assert(kept[j].0 != kept[i].0);
        }
    }
}

/// The added versions, the removed versions and the versions that are both
/// listed and known make up, between them, every version that is listed or
/// known: a version is listed or known exactly when it is added, removed or
/// both listed and known.
pub proof fn lemma_diff_partition(
    entries: Seq<(Seq<char>, (u32, u32))>,
    known: Seq<Seq<char>>,
    key: Seq<char>,
)
    ensures
        has_key(entries, key) || known.contains(key) <==> has_key(added(entries, known), key)
            || removed(entries, known).contains(key) || (has_key(entries, key) && known.contains(
            key,
        )),
        has_key(added(entries, known), key) ==> !removed(entries, known).contains(key),
{
    lemma_diff_sound(entries, known);
    lemma_diff_complete(entries, known);
    let plus = added(entries, known);
    let minus = removed(entries, known);
    if has_key(plus, key) {
        let i = slot_of(plus, key);
        assert(plus[i].0 == key);
        if minus.contains(key) {
            let j = choose|j: int| 0 <= j < minus.len() && minus[j] == key;
            assert(plus[i].0 != minus[j]);
        }
    }
    if minus.contains(key) {
        let j = choose|j: int| 0 <= j < minus.len() && minus[j] == key;
        assert(known.contains(minus[j]));
    }
}

/// When the known versions are exactly the versions that the document lists,
/// nothing is added and nothing is removed.
pub proof fn lemma_diff_of_same(entries: Seq<(Seq<char>, (u32, u32))>, known: Seq<Seq<char>>)
    requires
        forall|key: Seq<char>| known.contains(key) <==> has_key(entries, key),
    ensures
        added(entries, known).len() == 0,
        removed(entries, known).len() == 0,
{
    let listed = compact(entries);
    let held = compact(marked(known));
    lemma_compact_keys(entries);
    lemma_compact_keys(marked(known));
    assert forall|i: int| 0 <= i < listed.len() implies key_set(marked(known)).contains(
        (#[trigger] listed[i]).0,
    ) by {
        assert(has_key(listed, listed[i].0));
        lemma_marked(known, listed[i].0);
    }
    lemma_without_all(listed, key_set(marked(known)));
    assert forall|i: int| 0 <= i < held.len() implies key_set(entries).contains(
        (#[trigger] held[i]).0,
    ) by {
        assert(has_key(held, held[i].0));
        lemma_marked(known, held[i].0);
    }
    lemma_without_all(held, key_set(entries));
}

/// When nothing is known, every version that the document lists is added,
/// each once and in the order of the document, and nothing is removed.
pub proof fn lemma_diff_from_nothing(entries: Seq<(Seq<char>, (u32, u32))>, known: Seq<Seq<char>>)
    requires
        known.len() == 0,
    ensures
        added(entries, known) == compact(entries),
        forall|key: Seq<char>| has_key(entries, key) <==> has_key(added(entries, known), key),
        removed(entries, known).len() == 0,
{
    let listed = compact(entries);
    lemma_compact_keys(entries);
    assert forall|i: int| 0 <= i < listed.len() implies !key_set(marked(known)).contains(
        (#[trigger] listed[i]).0,
    ) by {
        lemma_marked(known, listed[i].0);
    }
    lemma_without_none(listed, key_set(marked(known)));
    assert(marked(known) =~= Seq::<(Seq<char>, ())>::empty());
    assert(compact(marked(known)).len() == 0);
}

/// When the document lists no version, nothing is added and every known
/// version is removed.
pub proof fn lemma_diff_of_nothing(entries: Seq<(Seq<char>, (u32, u32))>, known: Seq<Seq<char>>)
    requires
        entries.len() == 0,
    ensures
        added(entries, known).len() == 0,
        removed(entries, known) == keys_of(compact(marked(known))),
        forall|key: Seq<char>| known.contains(key) <==> removed(entries, known).contains(key),
{
    let held = compact(marked(known));
    lemma_compact_keys(marked(known));
    assert(compact(entries).len() == 0);
    assert forall|i: int| 0 <= i < held.len() implies !key_set(entries).contains(
        (#[trigger] held[i]).0,
    ) by {
        if has_key(entries, held[i].0) {
            let at = slot_of(entries, held[i].0);
        }
    }
    lemma_without_none(held, key_set(entries));
    assert forall|key: Seq<char>| known.contains(key) implies removed(entries, known).contains(
        key,
    ) by {
        lemma_marked(known, key);
        let at = slot_of(held, key);
        assert(held[at].0 == key);
        assert(keys_of(held)[at] == key);
    }
    assert forall|key: Seq<char>| removed(entries, known).contains(key) implies known.contains(
        key,
    ) by {
        let at = choose|at: int| 0 <= at < keys_of(held).len() && keys_of(held)[at] == key;
        assert(held[at].0 == key);
        assert(has_key(held, key));
        lemma_marked(known, key);
    }
}

/// The records of `entries` lie in a document of `len` bytes one after the
/// other: each range is non-empty and within the document, and a later
/// record begins where an earlier one has ended, or after.
pub open spec fn in_order(entries: Seq<(Seq<char>, (u32, u32))>, len: nat) -> bool {
    &&& forall|i: int|
        0 <= i < entries.len() ==> (#[trigger] entries[i]).1.0 < entries[i].1.1 <= len
    &&& forall|i: int, j: int|
        0 <= i < j < entries.len() ==> (#[trigger] entries[i]).1.1 <= (#[trigger] entries[j]).1.0
}

/// Two byte ranges share no byte.
pub open spec fn apart(a: (u32, u32), b: (u32, u32)) -> bool {
    a.1 <= b.0 || b.1 <= a.0
}

/// When the records of the document lie one after the other, every added
/// version carries the range of a record that the document files under that
/// version, the range lies within the document, and no two added versions
/// share a byte.
pub proof fn lemma_added_spans(
    entries: Seq<(Seq<char>, (u32, u32))>,
    known: Seq<Seq<char>>,
    len: nat,
)
    requires
        in_order(entries, len),
    ensures
        forall|i: int|
            0 <= i < added(entries, known).len() ==> entries.contains(
                #[trigger] added(entries, known)[i],
            ) && added(entries, known)[i].1.0 < added(entries, known)[i].1.1 <= len,
        forall|i: int, j: int|
            0 <= i < added(entries, known).len() && 0 <= j < added(entries, known).len() && i != j
                ==> apart(
                (#[trigger] added(entries, known)[i]).1,
                (#[trigger] added(entries, known)[j]).1,
            ),
{
    let listed = compact(entries);
    let plus = added(entries, known);
    lemma_compact_keys(entries);
    lemma_without(listed, key_set(marked(known)));
    assert forall|i: int| 0 <= i < plus.len() implies entries.contains(#[trigger] plus[i])
        && plus[i].1.0 < plus[i].1.1 <= len by {
        let at = choose|at: int| 0 <= at < listed.len() && listed[at] == plus[i];
        lemma_compact_value(entries, at);
        let from = choose|from: int| 0 <= from < entries.len() && entries[from] == listed[at];
        assert(entries[from] == plus[i]);
    }
    assert forall|i: int, j: int|
        0 <= i < plus.len() && 0 <= j < plus.len() && i != j implies apart(
        (#[trigger] plus[i]).1,
        (#[trigger] plus[j]).1,
    ) by {
        let a = choose|a: int| 0 <= a < entries.len() && entries[a] == plus[i];
        let b = choose|b: int| 0 <= b < entries.len() && entries[b] == plus[j];
        if i < j {
            assert(plus[i].0 != plus[j].0);
        } else {
            assert(plus[j].0 != plus[i].0);
        }
        if a < b {
            assert(entries[a].1.1 <= entries[b].1.0);
        } else {
            assert(entries[b].1.1 <= entries[a].1.0);
        }
    }
}

/// Files every name of `names`, in their order, with nothing under it.
fn file_names(names: &Vec<String>) -> (r: OrderedMap<()>)
    ensures
        r@ == compact(marked(names_of(names@))),
{
    let ghost all = marked(names_of(names@));
    let mut held: OrderedMap<()> = OrderedMap::new();
    let mut i: usize = 0;
    assert(all.take(0) =~= Seq::<(Seq<char>, ())>::empty());
    while i < names.len()
        invariant
            i <= names.len(),
            all == marked(names_of(names@)),
            held@ == compact(all.take(i as int)),
        decreases names.len() - i,
    {
        proof {
            assert(all.take(i + 1).drop_last() =~= all.take(i as int));
            assert(all.take(i + 1).last() == (names[i as int]@, ()));
        }
        held = held.insert(names[i].clone(), ());
        i += 1;
    }
    assert(all.take(i as int) =~= all);
    held
}

/// Files every entry of `entries`, in their order.
fn file_entries(entries: &Vec<(String, (u32, u32))>) -> (r: OrderedMap<(u32, u32)>)
    ensures
        r@ == compact(pairs_of(entries@)),
{
    let ghost all = pairs_of(entries@);
    let mut listed: OrderedMap<(u32, u32)> = OrderedMap::new();
    let mut i: usize = 0;
    assert(all.take(0) =~= Seq::<(Seq<char>, (u32, u32))>::empty());
    while i < entries.len()
        invariant
            i <= entries.len(),
            all == pairs_of(entries@),
            listed@ == compact(all.take(i as int)),
        decreases entries.len() - i,
    {
        proof {
            assert(all.take(i + 1).drop_last() =~= all.take(i as int));
            assert(all.take(i + 1).last() == (entries[i as int].0@, entries[i as int].1));
        }
        listed = listed.insert(entries[i].0.clone(), entries[i].1);
        i += 1;
    }
    assert(all.take(i as int) =~= all);
    listed
}

/// Compares the versions that a document lists with the versions that are
/// known.
///
/// `entries` holds the members of the document's version table in the order
/// of the document, each with the byte range of its record; a version that
/// the table names twice counts once, with the range of its last record.
/// A known version that is named twice counts once.
pub fn diff_versions(entries: &Vec<(String, (u32, u32))>, exists_versions: &Vec<String>) -> (r:
    DiffResult)
    ensures
        pairs_of(r.added_versions@) == added(pairs_of(entries@), names_of(exists_versions@)),
        names_of(r.removed_versions@) == removed(pairs_of(entries@), names_of(exists_versions@)),
{
    let ghost doc = pairs_of(entries@);
    let ghost known = names_of(exists_versions@);
    let held = file_names(exists_versions);
    let listed = file_entries(entries);
    proof {
        lemma_compact_keys(doc);
        lemma_compact_keys(marked(known));
    }

    let mut removed_versions: Vec<String> = Vec::new();
    let held_items = held.entries();
    let ghost held_pairs = pairs_of(held_items@);
    let mut i: usize = 0;
    assert(held_pairs.take(0) =~= Seq::<(Seq<char>, ())>::empty());
    assert(names_of(removed_versions@) =~= keys_of(without(held_pairs.take(0), key_set(doc))));
    while i < held_items.len()
        invariant
            i <= held_items.len(),
            held_pairs == pairs_of(held_items@),
            listed@ == compact(doc),
            forall|k: Seq<char>| has_key(compact(doc), k) <==> has_key(doc, k),
            names_of(removed_versions@) == keys_of(
                without(held_pairs.take(i as int), key_set(doc)),
            ),
        decreases held_items.len() - i,
    {
        let name = &held_items[i].0;
        proof {
            assert(held_pairs.take(i + 1).drop_last() =~= held_pairs.take(i as int));
            assert(held_pairs.take(i + 1).last() == (name@, ()));
        }
        if !listed.contains_key(name.as_str()) {
            let ghost before = without(held_pairs.take(i as int), key_set(doc));
            let ghost names = removed_versions@;
            removed_versions.push(name.clone());
            proof {
                assert(names_of(names).len() == keys_of(before).len());
                assert forall|k: int| 0 <= k < names.len() implies names[k]@ == before[k].0 by {
                    assert(names_of(names)[k] == keys_of(before)[k]);
                }
                assert(names_of(removed_versions@) =~= keys_of(before.push((name@, ()))));
            }
        }
        i += 1;
    }
    assert(held_pairs.take(i as int) =~= held_pairs);

    let mut added_versions: Vec<(String, (u32, u32))> = Vec::new();
    let listed_items = listed.entries();
    let ghost listed_pairs = pairs_of(listed_items@);
    let ghost known_keys = key_set(marked(known));
    let mut j: usize = 0;
    assert(listed_pairs.take(0) =~= Seq::<(Seq<char>, (u32, u32))>::empty());
    assert(pairs_of(added_versions@) =~= without(listed_pairs.take(0), known_keys));
    while j < listed_items.len()
        invariant
            j <= listed_items.len(),
            listed_pairs == pairs_of(listed_items@),
            known_keys == key_set(marked(known)),
            held@ == compact(marked(known)),
            forall|k: Seq<char>| has_key(compact(marked(known)), k) <==> has_key(marked(known), k),
            pairs_of(added_versions@) == without(listed_pairs.take(j as int), known_keys),
        decreases listed_items.len() - j,
    {
        let name = &listed_items[j].0;
        let span = listed_items[j].1;
        proof {
            assert(listed_pairs.take(j + 1).drop_last() =~= listed_pairs.take(j as int));
            assert(listed_pairs.take(j + 1).last() == (name@, span));
        }
        if !held.contains_key(name.as_str()) {
            added_versions.push((name.clone(), span));
            assert(pairs_of(added_versions@) =~= without(listed_pairs.take(j + 1), known_keys));
        }
        j += 1;
    }
    assert(listed_pairs.take(j as int) =~= listed_pairs);

    DiffResult { added_versions, removed_versions }
}

} // verus!
