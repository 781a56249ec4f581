//! The lazy JSON layer: finding the members of a JSON text without decoding
//! them.
//!
//! The parsing itself is done by the `sonic_rs` crate. What it answers is
//! given a name here (`lazy_value`, `lazy_get`, `lazy_entries`), and the functions of this module turn its answers into byte
//! ranges of the text that was searched. A text reaches the parser only as
//! UTF-8 where the parser takes that for granted, and only when it is nested
//! no deeper than `MAX_DEPTH`.

use vstd::prelude::*;
use vstd::slice::slice_subrange;
use vstd::string::StringSliceAdditionalSpecFns;
use vstd::utf8::{decode_utf8, valid_utf8};
use sonic_rs::JsonValueTrait;
use crate::error::PackumentError;
use crate::nesting::{is_shallow, shallow};
use crate::position::{lies_within, offsets_within};

verus! {

/// The error type of the `sonic_rs` crate, carried from a failed call to the
/// place where its message is read.
#[verifier::external_type_specification]
#[verifier::external_body]
pub struct ExSonicError(sonic_rs::Error);

/// The byte `"`, with which the raw text of a JSON string begins.
pub const QUOTE: u8 = 0x22;

/// Where the raw text of a located JSON value lies in memory: `base` is the
/// address of the text that was searched, `addr` the address of the value's
/// first byte, `len` the number of bytes the value occupies, and `is_str`
/// tells whether the value is a JSON string.
struct Located {
    base: usize,
    addr: usize,
    len: usize,
    is_str: bool,
}

impl Located {
    /// The offset of the value's first byte in the text that was searched.
    spec fn start(self) -> int {
        self.addr - self.base
    }

    /// The offset just past the value's last byte.
    spec fn end(self) -> int {
        self.addr - self.base + self.len
    }

    /// The value is a non-empty part of `text`, and is a string exactly when
    /// its first byte is a quote.
    spec fn fits(self, text: Seq<u8>) -> bool {
        &&& self.len > 0
        &&& lies_within(self.base as int, text.len() as int, self.addr as int, self.len as int)
        &&& self.is_str == (text[self.start()] == QUOTE)
    }
}

/// What a lookup of one key found.
enum Lookup {
    /// The key is present, with the value at this place.
    Found(Located),
    /// The text is an object without that key.
    Missing,
    /// The lookup failed for another reason.
    Failed(sonic_rs::Error),
}

/// What `sonic_rs::from_str` reads from `text` as one lazy value, and what
/// `as_str` then answers: `None` when `text` is refused, `Some(None)` when it
/// holds a value that is no string, and otherwise the decoded characters of
/// the JSON string that it holds.
pub uninterp spec fn lazy_value(text: Seq<char>) -> Option<Option<Seq<char>>>;

/// What `sonic_rs::get` answers for the path `[key]` in `text`: `None` when it
/// fails for any reason but a missing key, `Some(None)` when it reports the
/// key as not found, and otherwise the range of offsets in `text` that the
/// value under `key` occupies.
pub uninterp spec fn lazy_get(text: Seq<u8>, key: Seq<char>) -> Option<Option<(nat, nat)>>;

/// What `sonic_rs::to_object_iter` yields for `text`: `None` when any step of
/// the walk fails, and otherwise each member's decoded key with the range of
/// offsets in `text` that its value occupies, in the order of the text.
pub uninterp spec fn lazy_entries(text: Seq<u8>) -> Option<Seq<(Seq<char>, nat, nat)>>;

/// Whether `data` is UTF-8 text, nested no deeper than `MAX_DEPTH`, that holds
/// one well-formed JSON value.
pub open spec fn well_formed(data: Seq<u8>) -> bool {
    valid_utf8(data) && shallow(data) && lazy_value(decode_utf8(data)) is Some
}

/// The decoded characters of the JSON string whose raw text is `raw`; `None`
/// when `raw` is not UTF-8 text, is nested too deeply, or is not one JSON
/// string.
pub open spec fn text_of(raw: Seq<u8>) -> Option<Seq<char>> {
    if valid_utf8(raw) && shallow(raw) {
        match lazy_value(decode_utf8(raw)) {
            Some(found) => found,
            None => None,
        }
    } else {
        None
    }
}

/// What a lookup of `key` in the JSON object `text` gives: `None` when `text`
/// is nested too deeply or the lookup fails, `Some(None)` when the key is
/// missing, and otherwise the range of offsets in `text` of the value.
pub open spec fn lookup(text: Seq<u8>, key: Seq<char>) -> Option<Option<(nat, nat)>> {
    if shallow(text) {
        lazy_get(text, key)
    } else {
        None
    }
}

/// The key and range of offsets that a located member stands for.
spec fn entry_of(member: (String, Located)) -> (Seq<char>, nat, nat) {
    (member.0@, member.1.start() as nat, member.1.end() as nat)
}

/// Calls `core::str::from_utf8`, which succeeds exactly on bytes that are
/// UTF-8 text and then hands the same bytes back as a string slice, whose
/// characters are the ones that the bytes encode.
#[verifier::external_body]
fn utf8_text(bytes: &[u8]) -> (r: Option<&str>)
    ensures
        r is Some <==> valid_utf8(bytes@),
        r matches Some(text) ==> text@ == decode_utf8(bytes@) && text.spec_bytes() == bytes@,
{
    core::str::from_utf8(bytes).ok()
}

/// Calls `sonic_rs::from_str` to read `text` as one lazy value, and `as_str`
/// on the value. The crate refuses input longer than `u32::MAX` bytes. It
/// walks nested values by recursion, as deep as they are nested.
#[verifier::external_body]
fn read_value(text: &str) -> (r: Result<Option<String>, sonic_rs::Error>)
    requires
        shallow(text.spec_bytes()),
    ensures
        match r {
            Ok(Some(s)) => lazy_value(text@) == Some(Some(s@)),
            Ok(None) => lazy_value(text@) == Some(None::<Seq<char>>),
            Err(_) => lazy_value(text@) is None,
        },
        r is Ok ==> text.spec_bytes().len() <= u32::MAX,
{
    sonic_rs::from_str::<sonic_rs::LazyValue>(text).map(|v| v.as_str().map(|s| s.to_owned()))
}

/// Calls `sonic_rs::get` with the one-element path `[key]`. The value found
/// borrows from `text`: its raw text is a non-empty part of `text`, and
/// `is_str` looks at its first byte. The crate walks nested values by
/// recursion, as deep as they are nested.
#[verifier::external_body]
fn locate_member(text: &[u8], key: &str) -> (r: Lookup)
    requires
        shallow(text@),
    ensures
        match r {
            Lookup::Found(m) => m.fits(text@) && lazy_get(text@, key@) == Some(
                Some((m.start() as nat, m.end() as nat)),
            ),
            Lookup::Missing => lazy_get(text@, key@) == Some(None::<(nat, nat)>),
            Lookup::Failed(_) => lazy_get(text@, key@) is None,
        },
{
    let base = text.as_ptr() as usize;
    match sonic_rs::get(text, &[key]) {
        Ok(v) => {
            let raw = v.as_raw_str();
            Lookup::Found(Located { base, addr: raw.as_ptr() as usize, len: raw.len(), is_str: v.is_str() })
        },
        Err(e) if e.is_not_found() => Lookup::Missing,
        Err(e) => Lookup::Failed(e),
    }
}

/// Calls `sonic_rs::to_object_iter` and walks it to the end, stopping at the
/// first failure. Each value yielded borrows from `text`, and the walk moves
/// forward: a later member's value begins after an earlier one's has ended.
/// The crate walks nested values by recursion, as deep as they are nested.
#[verifier::external_body]
fn locate_entries(text: &[u8]) -> (r: Result<Vec<(String, Located)>, sonic_rs::Error>)
    requires
        shallow(text@),
    ensures
        match r {
            Ok(v) => {
                &&& lazy_entries(text@) == Some(v@.map_values(|m| entry_of(m)))
                &&& forall|i: int| 0 <= i < v.len() ==> (#[trigger] v[i]).1.fits(text@)
                &&& forall|i: int, j: int|
                    0 <= i < j < v.len() ==> (#[trigger] v[i]).1.end() <= (#[trigger] v[j]).1.start()
            },
            Err(_) => lazy_entries(text@) is None,
        },
{
    let base = text.as_ptr() as usize;
    sonic_rs::to_object_iter(text).map(|item| item.map(|(k, v)| {
        let raw = v.as_raw_str();
        (k.into_owned(), Located { base, addr: raw.as_ptr() as usize, len: raw.len(), is_str: v.is_str() })
    })).collect()
}

/// Reads the message of a `sonic_rs::Error` through its `Display`.
#[verifier::external_body]
fn describe(error: &sonic_rs::Error) -> String {
    error.to_string()
}

/// A JSON value located in a text: the half-open range of offsets that its
/// raw text occupies, and whether it is a string.
#[derive(Clone, Copy, Debug)]
pub struct RawValue {
    pub start: usize,
    pub end: usize,
    pub is_str: bool,
}

impl RawValue {
    /// The value is a non-empty part of `text`, and is marked as a string
    /// exactly when its first byte is a quote.
    pub open spec fn fits(self, text: Seq<u8>) -> bool {
        &&& self.start < self.end <= text.len()
        &&& self.is_str == (text[self.start as int] == QUOTE)
    }

    /// The raw text of the value in `text`.
    pub open spec fn raw(self, text: Seq<u8>) -> Seq<u8> {
        text.subrange(self.start as int, self.end as int)
    }
}

/// One member of a JSON object: its decoded key and its located value.
#[derive(Debug)]
pub struct RawMember {
    pub key: String,
    pub value: RawValue,
}

/// The members of an object are laid out in `text` one after the other.
pub open spec fn laid_out(members: Seq<RawMember>, text: Seq<u8>) -> bool {
    &&& forall|i: int| 0 <= i < members.len() ==> (#[trigger] members[i]).value.fits(text)
    &&& forall|i: int, j: int|
        0 <= i < j < members.len() ==> (#[trigger] members[i]).value.end <= (
        #[trigger] members[j]).value.start
}

/// The key and range of offsets of a member.
pub open spec fn member_entry(member: RawMember) -> (Seq<char>, nat, nat) {
    (member.key@, member.value.start as nat, member.value.end as nat)
}

/// The key and range of offsets of each member.
pub open spec fn entries_of(members: Seq<RawMember>) -> Seq<(Seq<char>, nat, nat)> {
    members.map_values(|m: RawMember| member_entry(m))
}

/// An entry moved `by` bytes towards the end.
pub open spec fn moved(entry: (Seq<char>, nat, nat), by: nat) -> (Seq<char>, nat, nat) {
    (entry.0, entry.1 + by, entry.2 + by)
}

/// The members of the object that occupies the offsets from `start` to `end`
/// of `data`, each with the range of offsets in `data` that its value
/// occupies; `None` when that object is nested too deeply or the walk over
/// it fails.
pub open spec fn entries_at(data: Seq<u8>, start: nat, end: nat) -> Option<
    Seq<(Seq<char>, nat, nat)>,
> {
    let text = data.subrange(start as int, end as int);
    match lazy_entries(text) {
        Some(entries) if shallow(text) => Some(
            entries.map_values(|e: (Seq<char>, nat, nat)| moved(e, start)),
        ),
        _ => None,
    }
}

/// The error for a text that is nested too deeply: a malformed document,
/// with a message that says so.
fn too_deep() -> (r: PackumentError)
    ensures
        r matches PackumentError::MalformedDocument(message) && message@
            == "the document is nested too deeply"@,
{
    PackumentError::MalformedDocument("the document is nested too deeply".to_owned())
}

/// Checks that `data` is UTF-8 text, nested no deeper than `MAX_DEPTH`, that
/// holds one well-formed JSON value.
pub fn parse(data: &[u8]) -> (r: Result<(), PackumentError>)
    ensures
        r is Ok <==> well_formed(data@),
        r is Ok ==> data@.len() <= u32::MAX,
        r matches Err(e) ==> e is MalformedDocument,
{
    match utf8_text(data) {
        Some(text) => {
            if !is_shallow(data) {
                return Err(too_deep());
            }
            match read_value(text) {
                Ok(_) => Ok(()),
                Err(e) => Err(PackumentError::MalformedDocument(describe(&e))),
            }
        },
        None => Err(PackumentError::MalformedDocument("the document is not UTF-8 text".to_owned())),
    }
}

/// Looks `key` up in the JSON object `text`, which is known to be nested no
/// deeper than `MAX_DEPTH`.
pub(crate) fn find(text: &[u8], key: &str) -> (r: Result<Option<RawValue>, PackumentError>)
    requires
        shallow(text@),
    ensures
        match lookup(text@, key@) {
            Some(Some(span)) => r matches Ok(Some(v)) && v.start == span.0 && v.end == span.1
                && v.fits(text@),
            Some(None) => r matches Ok(None),
            None => r matches Err(e) && e is MalformedDocument,
        },
{
    match locate_member(text, key) {
        Lookup::Found(m) => {
            match offsets_within(m.base, text.len(), m.addr, m.len) {
                Ok(span) => Ok(Some(RawValue { start: span.0, end: span.1, is_str: m.is_str })),
                Err(e) => Err(e),
            }
        },
        Lookup::Missing => Ok(None),
        Lookup::Failed(e) => Err(PackumentError::MalformedDocument(describe(&e))),
    }
}

/// Looks `key` up in the JSON object `text`.
///
/// A missing key is `Ok(None)`; a text that is not an object, that is broken
/// before the key is reached, or that is nested deeper than `MAX_DEPTH`, is a
/// malformed document.
pub fn get(text: &[u8], key: &str) -> (r: Result<Option<RawValue>, PackumentError>)
    ensures
        match lookup(text@, key@) {
            Some(Some(span)) => r matches Ok(Some(v)) && v.start == span.0 && v.end == span.1
                && v.fits(text@),
            Some(None) => r matches Ok(None),
            None => r matches Err(e) && e is MalformedDocument,
        },
{
    if !is_shallow(text) {
        return Err(too_deep());
    }
    find(text, key)
}

/// Lists the members of the JSON object `value` of `data`, in the order of
/// the text, each with the place of its value in `data`.
///
/// A range that does not lie in `data` is a buffer mismatch. A value that is
/// not an object, that is nested deeper than `MAX_DEPTH`, or in which the walk
/// fails at any member, is a malformed document: no part of the walk is
/// returned.
pub fn members(data: &[u8], value: &RawValue) -> (r: Result<Vec<RawMember>, PackumentError>)
    ensures
        !(value.start <= value.end <= data@.len()) ==> (r matches Err(e) && e
            is BufferIdentityMismatch),
        value.start <= value.end <= data@.len() ==> match entries_at(
            data@,
            value.start as nat,
            value.end as nat,
        ) {
            Some(entries) => r matches Ok(v) && entries_of(v@) == entries && laid_out(v@, data@)
                && forall|i: int|
                0 <= i < v.len() ==> value.start <= (#[trigger] v[i]).value.start
                    && v[i].value.end <= value.end,
            None => r matches Err(e) && e is MalformedDocument,
        },
{
    if value.start > value.end || value.end > data.len() {
        return Err(PackumentError::BufferIdentityMismatch);
    }
    let text = slice_subrange(data, value.start, value.end);
    let shift = value.start;
    if !is_shallow(text) {
        return Err(too_deep());
    }
    match locate_entries(text) {
        Ok(located) => {
            let ghost relative = located@.map_values(|m| entry_of(m));
            let ghost entries = relative.map_values(
                |e: (Seq<char>, nat, nat)| moved(e, shift as nat),
            );
            let mut out: Vec<RawMember> = Vec::new();
            let mut i: usize = 0;
            while i < located.len()
                invariant
                    i <= located.len(),
                    out.len() == i,
                    shift == value.start,
                    value.start <= value.end <= data@.len(),
                    text@ == data@.subrange(value.start as int, value.end as int),
                    relative == located@.map_values(|m| entry_of(m)),
                    entries == relative.map_values(
                        |e: (Seq<char>, nat, nat)| moved(e, shift as nat),
                    ),
                    forall|k: int| 0 <= k < located.len() ==> (#[trigger] located[k]).1.fits(text@),
                    forall|k: int|
                        0 <= k < i ==> member_entry(#[trigger] out[k]) == entries[k]
                            && out[k].value.fits(data@) && out[k].value.start == located[k].1.start()
                            + shift && out[k].value.end == located[k].1.end() + shift,
                decreases located.len() - i,
            {
                let m = &located[i];
                match offsets_within(m.1.base, text.len(), m.1.addr, m.1.len) {
                    Ok(span) => {
                        assert(text@[span.0 as int] == data@[shift + span.0]);
                        out.push(
                            RawMember {
                                key: m.0.clone(),
                                value: RawValue {
                                    start: shift + span.0,
                                    end: shift + span.1,
                                    is_str: m.1.is_str,
                                },
                            },
                        );
                    },
                    Err(e) => {
                        return Err(e);
                    },
                }
                i += 1;
            }
            assert(entries_of(out@) =~= entries);
            Ok(out)
        },
        Err(e) => Err(PackumentError::MalformedDocument(describe(&e))),
    }
}

/// Decodes the value `value` of `text` when it is a JSON string.
///
/// Anything else, and a range that does not lie in `text`, gives `None`.
pub fn as_str(text: &[u8], value: &RawValue) -> (r: Option<String>)
    ensures
        match r {
            Some(s) => value.start <= value.end <= text@.len() && text_of(value.raw(text@))
                == Some(s@),
            None => !(value.start <= value.end <= text@.len()) || text_of(value.raw(text@))
                is None,
        },
{
    if value.start > value.end || value.end > text.len() {
        return None;
    }
    let bytes = slice_subrange(text, value.start, value.end);
    match utf8_text(bytes) {
        Some(raw) => {
            if !is_shallow(bytes) {
                return None;
            }
            match read_value(raw) {
                Ok(found) => found,
                Err(_) => None,
            }
        },
        None => None,
    }
}

} // verus!
