//! A package document held by its bytes: the fields it exposes and the
//! difference between its versions and the versions a caller already holds.

use vstd::prelude::*;
use crate::diff::{
    added, diff_versions, in_order, lemma_added_spans, names_of, removed, DiffResult,
};
use crate::document::{
    dist_tags_of, field, field_text, latest_of, text_pairs, time_of, unpublished, versions_of,
    Document,
};
use crate::error::PackumentError;
use crate::lazy::{well_formed, RawValue};
use crate::ordered::{distinct_keys, pairs_of};

verus! {

/// The byte ranges of the entries of `entries` that stand under `name`, in
/// their order.
pub open spec fn records(entries: Seq<(Seq<char>, (u32, u32))>, name: Seq<char>) -> Seq<(u32, u32)>
    decreases entries.len(),
{
    if entries.len() == 0 {
        Seq::empty()
    } else if entries.last().0 == name {
        records(entries.drop_last(), name).push(entries.last().1)
    } else {
        records(entries.drop_last(), name)
    }
}

/// The byte ranges of the records that the document files under the version
/// that its `dist-tags` table calls `latest`, in the order of the document.
pub open spec fn latest_records(data: Seq<u8>) -> Seq<(u32, u32)> {
    match (latest_of(data), versions_of(data)) {
        (Some(tag), Some(entries)) => records(entries, tag),
        _ => Seq::empty(),
    }
}

/// The byte ranges of the entries of `entries` that stand under `name`, in
/// their order.
pub fn records_named(entries: &Vec<(String, (u32, u32))>, name: &str) -> (r: Vec<(u32, u32)>)
    ensures
        r@ == records(pairs_of(entries@), name@),
{
    let ghost all = pairs_of(entries@);
    let wanted = name.to_owned();
    let mut found: Vec<(u32, u32)> = Vec::new();
    let mut i: usize = 0;
    assert(all.take(0) =~= Seq::<(Seq<char>, (u32, u32))>::empty());
    while i < entries.len()
        invariant
            i <= entries.len(),
            wanted@ == name@,
            all == pairs_of(entries@),
            found@ == records(all.take(i as int), name@),
        decreases entries.len() - i,
    {
        proof {
            assert(all.take(i + 1).drop_last() =~= all.take(i as int));
            assert(all.take(i + 1).last() == (entries[i as int].0@, entries[i as int].1));
        }
        if entries[i].0 == wanted {
            found.push(entries[i].1);
        }
        i += 1;
    }
    assert(all.take(i as int) =~= all);
    found
}

/// A package metadata document, read lazily from the bytes that hold it.
///
/// The document borrows its bytes: every byte range that it hands out is a
/// range of those bytes, counted from their start.
pub struct Package<'a> {
    document: Document<'a>,
}

impl<'a> View for Package<'a> {
    type V = Seq<u8>;

    closed spec fn view(&self) -> Seq<u8> {
        self.document@
    }
}

impl<'a> Package<'a> {
    /// Reads `data` as a package document.
    ///
    /// Bytes that are not UTF-8 text holding one well-formed JSON value, and
    /// a value nested deeper than `MAX_DEPTH`, are refused as a malformed
    /// document.
    pub fn new(data: &'a [u8]) -> (r: Result<Package<'a>, PackumentError>)
        ensures
            r is Ok <==> well_formed(data@),
            r matches Ok(package) ==> package@ == data@ && data@.len() <= u32::MAX,
            r matches Err(e) ==> e is MalformedDocument,
    {
        match Document::parse(data) {
            Ok(document) => Ok(Package { document }),
            Err(e) => Err(e),
        }
    }

    /// The bytes of the document.
    pub fn bytes(&self) -> (r: &'a [u8])
        ensures
            r@ == self@,
            r@.len() <= u32::MAX,
    {
        self.document.bytes()
    }

    /// The byte range of `value` as a pair of 32-bit offsets from the start
    /// of the document.
    ///
    /// A value whose range does not lie within the document is a buffer
    /// mismatch.
    pub fn position(&self, value: &RawValue) -> (r: Result<(u32, u32), PackumentError>)
        ensures
            value.start <= value.end <= self@.len() ==> r == Ok::<(u32, u32), PackumentError>(
                (value.start as u32, value.end as u32),
            ) && value.end <= u32::MAX,
            !(value.start <= value.end <= self@.len()) ==> r == Err::<(u32, u32), PackumentError>(
                PackumentError::BufferIdentityMismatch,
            ),
    {
        self.document.position(value)
    }

    /// The members of the `versions` table, in the order of the document,
    /// each with the byte range of its record.
    ///
    /// A document without the table has no versions. A document that cannot
    /// be searched, or a table that cannot be walked as an object, is a
    /// malformed document.
    pub fn versions(&self) -> (r: Result<Vec<(String, (u32, u32))>, PackumentError>)
        ensures
            match versions_of(self@) {
                Some(entries) => r matches Ok(v) && pairs_of(v@) == entries && in_order(
                    entries,
                    self@.len(),
                ),
                None => r matches Err(e) && e is MalformedDocument,
            },
    {
        self.document.versions()
    }

    /// Compares the versions of the document with the versions in
    /// `exists_versions`.
    ///
    /// The added versions are those that the document lists and
    /// `exists_versions` lacks, in the order of the document, each with the
    /// byte range of its record; the removed versions are those of
    /// `exists_versions` that the document does not list, in the order of
    /// `exists_versions`. A document without a `versions` table lists nothing.
    /// The byte ranges lie within the document and share no byte.
    pub fn diff(&self, exists_versions: Vec<String>) -> (r: Result<DiffResult, PackumentError>)
        ensures
            match versions_of(self@) {
                Some(entries) => {
                    &&& r matches Ok(d)
                    &&& pairs_of(d.added_versions@) == added(entries, names_of(exists_versions@))
                    &&& names_of(d.removed_versions@) == removed(
                        entries,
                        names_of(exists_versions@),
                    )
                    &&& forall|i: int|
                        0 <= i < d.added_versions.len() ==> (#[trigger] d.added_versions[i]).1.0
                            < d.added_versions[i].1.1 <= self@.len()
                    &&& forall|i: int, j: int|
                        0 <= i < j < d.added_versions.len() ==> (
                        #[trigger] d.added_versions[i]).1.1 <= (#[trigger] d.added_versions[j]).1.0
                            || d.added_versions[j].1.1 <= d.added_versions[i].1.0
                },
                None => r matches Err(e) && e is MalformedDocument,
            },
    {
        match self.document.versions() {
            Ok(entries) => {
                let d = diff_versions(&entries, &exists_versions);
                proof {
                    let plus = added(pairs_of(entries@), names_of(exists_versions@));
                    lemma_added_spans(
                        pairs_of(entries@),
                        names_of(exists_versions@),
                        self@.len(),
                    );
                    assert forall|i: int| 0 <= i < d.added_versions.len() implies (
                    #[trigger] d.added_versions[i]).1.0 < d.added_versions[i].1.1
                        <= self@.len() by {
                        assert(plus[i].1 == d.added_versions[i].1);
                    }
                    assert forall|i: int, j: int| 0 <= i < j < d.added_versions.len() implies (
                    #[trigger] d.added_versions[i]).1.1 <= (#[trigger] d.added_versions[j]).1.0
                        || d.added_versions[j].1.1 <= d.added_versions[i].1.0 by {
                        assert(plus[i].1 == d.added_versions[i].1);
                        assert(plus[j].1 == d.added_versions[j].1);
                    }
                }
                Ok(d)
            },
            Err(e) => Err(e),
        }
    }

    /// The name of the package, if the document has one that is a string.
    pub fn name(&self) -> (r: Option<String>)
        ensures
            match r {
                Some(text) => field_text(self@, "name"@) == Some(text@),
                None => field_text(self@, "name"@) is None,
            },
    {
        self.document.text_field("name")
    }

    /// The description of the package, if the document has one that is a
    /// string.
    pub fn description(&self) -> (r: Option<String>)
        ensures
            match r {
                Some(text) => field_text(self@, "description"@) == Some(text@),
                None => field_text(self@, "description"@) is None,
            },
    {
        self.document.text_field("description")
    }

    /// The readme of the package, if the document has one that is a string.
    pub fn readme(&self) -> (r: Option<String>)
        ensures
            match r {
                Some(text) => field_text(self@, "readme"@) == Some(text@),
                None => field_text(self@, "readme"@) is None,
            },
    {
        self.document.text_field("readme")
    }

    /// The byte range of the raw `readme` field in the document, whatever
    /// kind of value it is.
    pub fn readme_position(&self) -> (r: Option<(u32, u32)>)
        ensures
            match field(self@, "readme"@) {
                Some(span) => r == Some((span.0 as u32, span.1 as u32)) && span.0 < span.1
                    <= self@.len() && span.1 <= u32::MAX,
                None => r is None,
            },
    {
        self.document.field_position("readme")
    }

    /// The `time` table as a mapping from keys to texts, each key once.
    pub fn time(&self) -> (r: Option<Vec<(String, String)>>)
        ensures
            match r {
                Some(pairs) => time_of(self@) == Some(text_pairs(pairs@)) && distinct_keys(
                    text_pairs(pairs@),
                ),
                None => time_of(self@) is None,
            },
    {
        self.document.text_table("time")
    }

    /// The `dist-tags` table as a mapping from tags to versions, each tag
    /// once.
    pub fn dist_tags(&self) -> (r: Option<Vec<(String, String)>>)
        ensures
            match r {
                Some(pairs) => dist_tags_of(self@) == Some(text_pairs(pairs@)) && distinct_keys(
                    text_pairs(pairs@),
                ),
                None => dist_tags_of(self@) is None,
            },
    {
        self.document.text_table("dist-tags")
    }

    /// Whether the package has been unpublished: whether the `time` table has
    /// a member `unpublished` whose value is a string, whatever the string
    /// says.
    pub fn is_unpublished(&self) -> (r: bool)
        ensures
            r == unpublished(self@),
    {
        self.document.is_unpublished()
    }

    /// The byte ranges of the records that the document files under its
    /// latest version, in the order of the document.
    ///
    /// The latest version is the one that the `dist-tags` table calls
    /// `latest`. Without such a tag, and without a `versions` table that can
    /// be walked, there is no record.
    pub fn get_latest_version(&self) -> (r: Vec<(u32, u32)>)
        ensures
            r@ == latest_records(self@),
    {
        let tag = match self.document.latest_tag() {
            Some(tag) => tag,
            None => {
                return Vec::new();
            },
        };
        match self.document.versions() {
            Ok(entries) => records_named(&entries, tag.as_str()),
            Err(_) => Vec::new(),
        }
    }
}

} // verus!
