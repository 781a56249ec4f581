//! The package document as the scripting host first saw it: the text fields,
//! the publication times, and whether the package has been unpublished.

use vstd::prelude::*;
use crate::document::{field_text, text_pairs, time_of, unpublished, Document};
use crate::error::PackumentError;
use crate::lazy::well_formed;
use crate::ordered::distinct_keys;

verus! {

/// A package metadata document, read lazily from the bytes that hold it.
pub struct JsPackage<'a> {
    document: Document<'a>,
}

impl<'a> View for JsPackage<'a> {
    type V = Seq<u8>;

    closed spec fn view(&self) -> Seq<u8> {
        self.document@
    }
}

impl<'a> JsPackage<'a> {
    /// Reads `data` as a package document.
    ///
    /// Bytes that are not UTF-8 text holding one well-formed JSON value, and
    /// a value nested deeper than `MAX_DEPTH`, are refused as a malformed
    /// document.
    pub fn new(data: &'a [u8]) -> (r: Result<JsPackage<'a>, PackumentError>)
        ensures
            r is Ok <==> well_formed(data@),
            r matches Ok(package) ==> package@ == data@,
            r matches Err(e) ==> e is MalformedDocument,
    {
        match Document::parse(data) {
            Ok(document) => Ok(JsPackage { document }),
            Err(e) => Err(e),
        }
    }

    /// The name of the package, if the document has one that is a string.
    pub fn name(&self) -> (r: Option<String>)
        ensures
            match r {
                Some(text) => field_text(self@, "name"@) == Some(text@),
                None => field_text(self@, "name"@) is None,
            },
    {
        self.document.text_field("name")
    }

    /// The description of the package, if the document has one that is a
    /// string.
    pub fn description(&self) -> (r: Option<String>)
        ensures
            match r {
                Some(text) => field_text(self@, "description"@) == Some(text@),
                None => field_text(self@, "description"@) is None,
            },
    {
        self.document.text_field("description")
    }

    /// The readme of the package, if the document has one that is a string.
    pub fn readme(&self) -> (r: Option<String>)
        ensures
            match r {
                Some(text) => field_text(self@, "readme"@) == Some(text@),
                None => field_text(self@, "readme"@) is None,
            },
    {
        self.document.text_field("readme")
    }

    /// The `time` table as a mapping from keys to texts, each key once.
    pub fn time(&self) -> (r: Option<Vec<(String, String)>>)
        ensures
            match r {
                Some(pairs) => time_of(self@) == Some(text_pairs(pairs@)) && distinct_keys(
                    text_pairs(pairs@),
                ),
                None => time_of(self@) is None,
            },
    {
        self.document.text_table("time")
    }

    /// Whether the package has been unpublished: whether the `time` table has
    /// a member `unpublished` whose value is a string, whatever the string
    /// says.
    pub fn is_unpublished(&self) -> (r: bool)
        ensures
            r == unpublished(self@),
    {
        self.document.is_unpublished()
    }
}

} // verus!
