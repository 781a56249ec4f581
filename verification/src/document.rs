//! A package document held by its bytes, and its top-level fields: what each
//! field is, stated over the bytes of the document, and the methods that read
//! it.

use vstd::prelude::*;
use crate::error::PackumentError;
use crate::diff::in_order;
use crate::lazy::{
    as_str, entries_at, entries_of, find, laid_out, lookup, member_entry, members, parse, text_of,
    well_formed, RawMember, RawValue, QUOTE,
};
use crate::ordered::{
    compact, distinct_keys, has_key, lemma_compact_keys, pairs_of, put, slot_of, OrderedMap,
};

verus! {

/// The range of offsets in `data` of the value of the top-level field `key`,
/// if the document is an object that has the field.
pub open spec fn field(data: Seq<u8>, key: Seq<char>) -> Option<(nat, nat)> {
    match lookup(data, key) {
        Some(Some(span)) => Some(span),
        _ => None,
    }
}

/// The decoded text of the top-level field `key`, if the document has the
/// field and its value is a string.
pub open spec fn field_text(data: Seq<u8>, key: Seq<char>) -> Option<Seq<char>> {
    match field(data, key) {
        Some(span) => text_of(data.subrange(span.0 as int, span.1 as int)),
        None => None,
    }
}

/// The members of the object under the top-level field `key`: `None` when the
/// document cannot be searched or the field's value cannot be walked as an
/// object, `Some(None)` when the document has no such field, and otherwise
/// each member's key with the range of offsets in `data` of its value.
pub open spec fn table(data: Seq<u8>, key: Seq<char>) -> Option<
    Option<Seq<(Seq<char>, nat, nat)>>,
> {
    match lookup(data, key) {
        None => None,
        Some(None) => Some(None),
        Some(Some(span)) => match entries_at(data, span.0, span.1) {
            Some(entries) => Some(Some(entries)),
            None => None,
        },
    }
}

/// Whether some member of `members` has the key `key` and a string for its
/// value.
pub open spec fn has_text_under(members: Seq<RawMember>, key: Seq<char>) -> bool {
    exists|i: int|
        0 <= i < members.len() && (#[trigger] members[i]).key@ == key && members[i].value.is_str
}

/// Whether the document's `time` table has a member `unpublished` whose value
/// begins with a quote, that is, whose value is a string.
pub open spec fn unpublished(data: Seq<u8>) -> bool {
    match table(data, "time"@) {
        Some(Some(entries)) => exists|i: int|
            0 <= i < entries.len() && (#[trigger] entries[i]).0 == "unpublished"@
                && data[entries[i].1 as int] == QUOTE,
        _ => false,
    }
}

/// The members of `entries` whose value in `data` is a string, each with its
/// decoded text, in their order.
pub open spec fn texts(data: Seq<u8>, entries: Seq<(Seq<char>, nat, nat)>) -> Seq<
    (Seq<char>, Seq<char>),
>
    decreases entries.len(),
{
    if entries.len() == 0 {
        Seq::empty()
    } else {
        let entry = entries.last();
        match text_of(data.subrange(entry.1 as int, entry.2 as int)) {
            Some(text) => texts(data, entries.drop_last()).push((entry.0, text)),
            None => texts(data, entries.drop_last()),
        }
    }
}

/// The table under the top-level field `key` as a mapping from keys to
/// texts: each key whose value is a string, once, in the order of first
/// appearance and with the text that appears last. `None` when the document
/// has no such table that can be walked.
pub open spec fn text_table_of(data: Seq<u8>, key: Seq<char>) -> Option<
    Seq<(Seq<char>, Seq<char>)>,
> {
    match table(data, key) {
        Some(Some(entries)) => Some(compact(texts(data, entries))),
        _ => None,
    }
}

/// The document's `time` table as a mapping from keys to texts.
pub open spec fn time_of(data: Seq<u8>) -> Option<Seq<(Seq<char>, Seq<char>)>> {
    text_table_of(data, "time"@)
}

/// The document's `dist-tags` table as a mapping from tags to versions.
pub open spec fn dist_tags_of(data: Seq<u8>) -> Option<Seq<(Seq<char>, Seq<char>)>> {
    text_table_of(data, "dist-tags"@)
}

/// The decoded text of the first member of `entries` that has the key `key`
/// and a string for its value.
pub open spec fn first_text(data: Seq<u8>, entries: Seq<(Seq<char>, nat, nat)>, key: Seq<char>)
    -> Option<Seq<char>>
    decreases entries.len(),
{
    if entries.len() == 0 {
        None
    } else {
        let entry = entries.first();
        let text = text_of(data.subrange(entry.1 as int, entry.2 as int));
        if entry.0 == key && text is Some {
            text
        } else {
            first_text(data, entries.drop_first(), key)
        }
    }
}

/// The version that the document's `dist-tags` table files under `latest`.
pub open spec fn latest_of(data: Seq<u8>) -> Option<Seq<char>> {
    match table(data, "dist-tags"@) {
        Some(Some(entries)) => first_text(data, entries, "latest"@),
        _ => None,
    }
}

/// Each entry with its range of offsets as a pair of 32-bit numbers.
pub open spec fn narrowed(entries: Seq<(Seq<char>, nat, nat)>) -> Seq<(Seq<char>, (u32, u32))> {
    entries.map_values(|e: (Seq<char>, nat, nat)| (e.0, (e.1 as u32, e.2 as u32)))
}

/// The members of the document's `versions` table, in the order of the
/// document, each with the byte range of its record: nothing when the document
/// has no such table, `None` when the document cannot be searched or the
/// table cannot be walked.
pub open spec fn versions_of(data: Seq<u8>) -> Option<Seq<(Seq<char>, (u32, u32))>> {
    match table(data, "versions"@) {
        Some(Some(entries)) => Some(narrowed(entries)),
        Some(None) => Some(Seq::empty()),
        None => None,
    }
}

/// The characters of both strings of each pair.
pub open spec fn text_pairs(items: Seq<(String, String)>) -> Seq<(Seq<char>, Seq<char>)> {
    items.map_values(|item: (String, String)| (item.0@, item.1@))
}

/// The characters of the value of each pair.
pub open spec fn shown(pairs: Seq<(Seq<char>, String)>) -> Seq<(Seq<char>, Seq<char>)> {
    pairs.map_values(|pair: (Seq<char>, String)| (pair.0, pair.1@))
}

/// Filing a string and then reading the characters of every value gives what
/// filing its characters gives.
proof fn lemma_shown_put(pairs: Seq<(Seq<char>, String)>, key: Seq<char>, value: String)
    requires
        distinct_keys(pairs),
    ensures
        shown(put(pairs, key, value)) == put(shown(pairs), key, value@),
{
    let seen = shown(pairs);
    if has_key(pairs, key) {
        let at = slot_of(pairs, key);
        assert(seen[at].0 == key);
        let other = slot_of(seen, key);
        assert(pairs[other].0 == key);
        assert(other == at);
        assert(shown(put(pairs, key, value)) =~= put(seen, key, value@));
    } else {
        if has_key(seen, key) {
            let other = slot_of(seen, key);
            assert(pairs[other].0 == key);
        }
        assert(shown(put(pairs, key, value)) =~= put(seen, key, value@));
    }
}

/// Whether some member of `members` has the key `key` and a string for its
/// value.
pub fn text_under(members: &Vec<RawMember>, key: &str) -> (r: bool)
    ensures
        r == has_text_under(members@, key@),
{
    let wanted = key.to_owned();
    let mut i: usize = 0;
    while i < members.len()
        invariant
            i <= members.len(),
            wanted@ == key@,
            forall|k: int|
                0 <= k < i ==> !((#[trigger] members[k]).key@ == key@ && members[k].value.is_str),
        decreases members.len() - i,
    {
        if members[i].value.is_str && members[i].key == wanted {
            return true;
        }
        i += 1;
    }
    false
}

/// Writes the range of each member as a pair of 32-bit numbers.
fn narrow_members(list: &Vec<RawMember>, Ghost(data): Ghost<Seq<u8>>) -> (r: Vec<
    (String, (u32, u32)),
>)
    requires
        laid_out(list@, data),
        data.len() <= u32::MAX,
    ensures
        pairs_of(r@) == narrowed(entries_of(list@)),
        in_order(pairs_of(r@), data.len()),
{
    let mut out: Vec<(String, (u32, u32))> = Vec::new();
    let mut i: usize = 0;
    while i < list.len()
        invariant
            i <= list.len(),
            out.len() == i,
            laid_out(list@, data),
            data.len() <= u32::MAX,
            forall|k: int|
                0 <= k < i ==> (#[trigger] out[k]).0@ == list[k].key@ && out[k].1.0
                    == list[k].value.start && out[k].1.1 == list[k].value.end,
        decreases list.len() - i,
    {
        let member = &list[i];
        assert(member.value.fits(data));
        out.push((member.key.clone(), (member.value.start as u32, member.value.end as u32)));
        i += 1;
    }
    proof {
        assert(pairs_of(out@) =~= narrowed(entries_of(list@)));
        let pairs = pairs_of(out@);
        assert forall|k: int| 0 <= k < pairs.len() implies (#[trigger] pairs[k]).1.0 < pairs[k].1.1
            <= data.len() by {
            assert(list[k].value.fits(data));
            assert(out[k].1.0 == list[k].value.start);
        }
        assert forall|k: int, j: int| 0 <= k < j < pairs.len() implies (#[trigger] pairs[k]).1.1
            <= (#[trigger] pairs[j]).1.0 by {
            assert(list[k].value.end <= list[j].value.start);
            assert(out[k].1.1 == list[k].value.end);
            assert(out[j].1.0 == list[j].value.start);
        }
    }
    out
}

/// A package metadata document, read lazily from the bytes that hold it.
///
/// The document borrows its bytes: every byte range that it hands out is a
/// range of those bytes, counted from their start.
pub struct Document<'a> {
    data: &'a [u8],
}

impl<'a> View for Document<'a> {
    type V = Seq<u8>;

    closed spec fn view(&self) -> Seq<u8> {
        self.data@
    }
}

impl<'a> Document<'a> {
    /// The bytes are UTF-8 text, nested no deeper than `MAX_DEPTH`, that was
    /// accepted as one well-formed JSON value, and are few enough for 32-bit
    /// offsets.
    #[verifier::type_invariant]
    spec fn accepted(&self) -> bool {
        well_formed(self.data@) && self.data@.len() <= u32::MAX
    }

    /// Reads `data` as a package document.
    ///
    /// Bytes that are not UTF-8 text holding one well-formed JSON value, and
    /// a value nested deeper than `MAX_DEPTH`, are refused as a malformed
    /// document.
    pub fn parse(data: &'a [u8]) -> (r: Result<Document<'a>, PackumentError>)
        ensures
            r is Ok <==> well_formed(data@),
            r matches Ok(document) ==> document@ == data@ && data@.len() <= u32::MAX,
            r matches Err(e) ==> e is MalformedDocument,
    {
        match parse(data) {
            Ok(()) => Ok(Document { data }),
            Err(e) => Err(e),
        }
    }

    /// The bytes of the document.
    pub fn bytes(&self) -> (r: &'a [u8])
        ensures
            r@ == self@,
            r@.len() <= u32::MAX,
            well_formed(r@),
    {
        proof {
            use_type_invariant(self);
        }
        self.data
    }

    /// The byte range of `value` as a pair of 32-bit offsets from the start
    /// of the document.
    ///
    /// A value whose range does not lie within the document is a buffer
    /// mismatch.
    pub fn position(&self, value: &RawValue) -> (r: Result<(u32, u32), PackumentError>)
        ensures
            value.start <= value.end <= self@.len() ==> r == Ok::<(u32, u32), PackumentError>(
                (value.start as u32, value.end as u32),
            ) && value.end <= u32::MAX,
            !(value.start <= value.end <= self@.len()) ==> r == Err::<(u32, u32), PackumentError>(
                PackumentError::BufferIdentityMismatch,
            ),
    {
        proof {
            use_type_invariant(self);
        }
        if value.start > value.end || value.end > self.data.len() {
            return Err(PackumentError::BufferIdentityMismatch);
        }
        Ok((value.start as u32, value.end as u32))
    }

    /// Finds the byte range of the value of the top-level field `key`,
    /// whatever kind of value it is.
    pub fn field_position(&self, key: &str) -> (r: Option<(u32, u32)>)
        ensures
            match field(self@, key@) {
                Some(span) => r == Some((span.0 as u32, span.1 as u32)) && span.0 < span.1
                    <= self@.len() && span.1 <= u32::MAX,
                None => r is None,
            },
    {
        proof {
            use_type_invariant(self);
        }
        match find(self.data, key) {
            Ok(Some(value)) => Some((value.start as u32, value.end as u32)),
            _ => None,
        }
    }

    /// Reads the top-level field `key` as text.
    ///
    /// A document without the field, and a field whose value is not a string,
    /// give `None`.
    pub fn text_field(&self, key: &str) -> (r: Option<String>)
        ensures
            match r {
                Some(text) => field_text(self@, key@) == Some(text@),
                None => field_text(self@, key@) is None,
            },
    {
        proof {
            use_type_invariant(self);
        }
        match find(self.data, key) {
            Ok(Some(value)) => as_str(self.data, &value),
            _ => None,
        }
    }

    /// Reads the members of the object under the top-level field `key`.
    ///
    /// A document without the field gives `Ok(None)`. A document that cannot
    /// be searched, or a field whose value cannot be walked as an object, is
    /// a malformed document.
    pub fn read_table(&self, key: &str) -> (r: Result<Option<Vec<RawMember>>, PackumentError>)
        ensures
            match table(self@, key@) {
                Some(Some(entries)) => r matches Ok(Some(v)) && entries_of(v@) == entries
                    && laid_out(v@, self@),
                Some(None) => r matches Ok(None),
                None => r matches Err(e) && e is MalformedDocument,
            },
    {
        proof {
            use_type_invariant(self);
        }
        match find(self.data, key) {
            Ok(Some(value)) => {
                match members(self.data, &value) {
                    Ok(list) => Ok(Some(list)),
                    Err(e) => Err(e),
                }
            },
            Ok(None) => Ok(None),
            Err(e) => Err(e),
        }
    }

    /// Reads the table under the top-level field `key` as a mapping from keys
    /// to texts.
    ///
    /// Members whose value is not a string are passed over. A key that
    /// appears twice keeps the place of its first appearance and the text of
    /// its last. A document without such a table that can be walked gives
    /// `None`.
    pub fn text_table(&self, key: &str) -> (r: Option<Vec<(String, String)>>)
        ensures
            match r {
                Some(pairs) => text_table_of(self@, key@) == Some(text_pairs(pairs@))
                    && distinct_keys(text_pairs(pairs@)),
                None => text_table_of(self@, key@) is None,
            },
    {
        match self.read_table(key) {
            Ok(Some(list)) => {
                let data = self.data;
                let ghost entries = entries_of(list@);
                let mut filed: OrderedMap<String> = OrderedMap::new();
                let mut i: usize = 0;
                assert(entries.take(0) =~= Seq::<(Seq<char>, nat, nat)>::empty());
                assert(shown(filed@) =~= Seq::<(Seq<char>, Seq<char>)>::empty());
                while i < list.len()
                    invariant
                        i <= list.len(),
                        entries == entries_of(list@),
                        laid_out(list@, data@),
                        distinct_keys(filed@),
                        shown(filed@) == compact(texts(data@, entries.take(i as int))),
                    decreases list.len() - i,
                {
                    proof {
                        assert(entries.take(i + 1).drop_last() =~= entries.take(i as int));
                        assert(entries.take(i + 1).last() == entries[i as int]);
                        assert(list[i as int].value.fits(data@));
                    }
                    match as_str(data, &list[i].value) {
                        Some(text) => {
                            proof {
                                lemma_shown_put(filed@, list[i as int].key@, text);
                                assert(texts(data@, entries.take(i + 1)).drop_last() =~= texts(
                                    data@,
                                    entries.take(i as int),
                                ));
                            }
                            filed = filed.insert(list[i].key.clone(), text);
                        },
                        None => {},
                    }
                    i += 1;
                }
                assert(entries.take(i as int) =~= entries);
                let ghost done = filed@;
                let pairs = filed.into_entries();
                proof {
                    assert(text_pairs(pairs@) =~= shown(done));
                    lemma_compact_keys(texts(data@, entries));
                }
                Some(pairs)
            },
            _ => None,
        }
    }

    /// Whether the package has been unpublished: whether the `time` table has
    /// a member `unpublished` whose value is a string, whatever the string
    /// says.
    pub fn is_unpublished(&self) -> (r: bool)
        ensures
            r == unpublished(self@),
    {
        match self.read_table("time") {
            Ok(Some(list)) => {
                let r = text_under(&list, "unpublished");
                proof {
                    let entries = entries_of(list@);
                    if r {
                        let i = choose|i: int|
                            0 <= i < list.len() && (#[trigger] list[i]).key@ == "unpublished"@
                                && list[i].value.is_str;
                        assert(entries[i].0 == "unpublished"@);
                        assert(list[i].value.fits(self@));
                    } else if unpublished(self@) {
                        let i = choose|i: int|
                            0 <= i < entries.len() && (#[trigger] entries[i]).0 == "unpublished"@
                                && self@[entries[i].1 as int] == QUOTE;
                        assert(list[i].value.fits(self@));
                        assert(list[i].key@ == "unpublished"@);
                    }
                }
                r
            },
            _ => false,
        }
    }

    /// Finds the version that the `dist-tags` table files under `latest`: the
    /// text of the first member `latest` whose value is a string.
    pub fn latest_tag(&self) -> (r: Option<String>)
        ensures
            match r {
                Some(text) => latest_of(self@) == Some(text@),
                None => latest_of(self@) is None,
            },
    {
        match self.read_table("dist-tags") {
            Ok(Some(list)) => {
                let data = self.data;
                let ghost entries = entries_of(list@);
                let wanted = "latest".to_owned();
                let mut i: usize = 0;
                assert(entries.skip(0) =~= entries);
                while i < list.len()
                    invariant
                        i <= list.len(),
                        wanted@ == "latest"@,
                        data@ == self@,
                        entries == entries_of(list@),
                        table(data@, "dist-tags"@) == Some(Some(entries)),
                        laid_out(list@, data@),
                        first_text(data@, entries, "latest"@) == first_text(
                            data@,
                            entries.skip(i as int),
                            "latest"@,
                        ),
                    decreases list.len() - i,
                {
                    proof {
                        assert(entries.skip(i as int).first() == entries[i as int]);
                        assert(entries.skip(i as int).drop_first() =~= entries.skip(i + 1));
                        assert(entries[i as int] == member_entry(list[i as int]));
                        assert(list[i as int].value.fits(data@));
                    }
                    if list[i].key == wanted {
                        match as_str(data, &list[i].value) {
                            Some(text) => {
                                return Some(text);
                            },
                            None => {},
                        }
                    }
                    i += 1;
                }
                None
            },
            _ => None,
        }
    }

    /// The members of the `versions` table, in the order of the document,
    /// each with the byte range of its record.
    ///
    /// A document without the table has no versions. A document that cannot
    /// be searched, or a table that cannot be walked as an object, is a
    /// malformed document.
    pub fn versions(&self) -> (r: Result<Vec<(String, (u32, u32))>, PackumentError>)
        ensures
            match versions_of(self@) {
                Some(entries) => r matches Ok(v) && pairs_of(v@) == entries && in_order(
                    entries,
                    self@.len(),
                ),
                None => r matches Err(e) && e is MalformedDocument,
            },
    {
        proof {
            use_type_invariant(self);
        }
        match self.read_table("versions") {
            Ok(Some(list)) => Ok(narrow_members(&list, Ghost(self.data@))),
            Ok(None) => {
                let none: Vec<(String, (u32, u32))> = Vec::new();
                assert(pairs_of(none@) =~= Seq::<(Seq<char>, (u32, u32))>::empty());
                Ok(none)
            },
            Err(e) => Err(e),
        }
    }
}

} // verus!
