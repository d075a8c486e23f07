//! The fields of a PDF's document information dictionary.
use vstd::prelude::*;

use crate::xml_events::text_is;
use vstd::utf8::encode_utf8;

verus! {

/// A field of the document information dictionary.
#[derive(Debug, Clone, Copy, PartialEq, Eq, Structural)]
pub enum PdfMetaField {
    Title,
    Author,
    Creator,
    Producer,
    CreationDate,
    ModificationDate,
}

/// The values of the document information fields, where present.
pub struct PdfMetadata {
    pub title: Option<String>,
    pub author: Option<String>,
    pub creator: Option<String>,
    pub producer: Option<String>,
    pub creation_date: Option<String>,
    pub modification_date: Option<String>,
}

/// The key of the information dictionary in the trailer.
pub const PDF_META_INFO_KEY: &'static str = "Info";

/// The dictionary key of each field, as text.
pub open spec fn key_text(f: PdfMetaField) -> Seq<char> {
    match f {
        PdfMetaField::Title => "Title"@,
        PdfMetaField::Author => "Author"@,
        PdfMetaField::Creator => "Creator"@,
        PdfMetaField::Producer => "Producer"@,
        PdfMetaField::CreationDate => "CreationDate"@,
        PdfMetaField::ModificationDate => "ModDate"@,
    }
}


impl PdfMetaField {
    /// The field named by `input` (`ModificationDate` for the `ModDate` key).
    pub fn from_name(input: &str) -> (r: Option<PdfMetaField>)
        ensures
            input@ == "Title"@ <==> r == Some(PdfMetaField::Title),
            input@ == "Author"@ <==> r == Some(PdfMetaField::Author),
            input@ == "Creator"@ <==> r == Some(PdfMetaField::Creator),
            input@ == "Producer"@ <==> r == Some(PdfMetaField::Producer),
            input@ == "CreationDate"@ <==> r == Some(PdfMetaField::CreationDate),
            input@ == "ModificationDate"@ <==> r == Some(PdfMetaField::ModificationDate),
    {
        let s = input.to_owned();
        proof {
            reveal_strlit("Title");
            reveal_strlit("Author");
            reveal_strlit("Creator");
            reveal_strlit("Producer");
            reveal_strlit("CreationDate");
            reveal_strlit("ModificationDate");
            assert("Title"@.len() == 5 && "Author"@.len() == 6 && "Creator"@.len() == 7);
            assert("Producer"@.len() == 8 && "CreationDate"@.len() == 12);
            assert("ModificationDate"@.len() == 16);
            assert("Creator"@[0] != "Producer"@[0]);
        }
        if text_is(&s, "Title") {
            Some(PdfMetaField::Title)
        } else if text_is(&s, "Author") {
            Some(PdfMetaField::Author)
        } else if text_is(&s, "Creator") {
            Some(PdfMetaField::Creator)
        } else if text_is(&s, "Producer") {
            Some(PdfMetaField::Producer)
        } else if text_is(&s, "CreationDate") {
            Some(PdfMetaField::CreationDate)
        } else if text_is(&s, "ModificationDate") {
            Some(PdfMetaField::ModificationDate)
        } else {
            None
        }
    }

    /// The field's key in the information dictionary.
    pub fn as_bytes(&self) -> (r: &'static [u8])
        ensures
            r@ == encode_utf8(key_text(*self)),
    {
        match self {
            PdfMetaField::Title => "Title".as_bytes(),
            PdfMetaField::Author => "Author".as_bytes(),
            PdfMetaField::Creator => "Creator".as_bytes(),
            PdfMetaField::Producer => "Producer".as_bytes(),
            PdfMetaField::CreationDate => "CreationDate".as_bytes(),
            PdfMetaField::ModificationDate => "ModDate".as_bytes(),
        }
    }
}

impl std::str::FromStr for PdfMetaField {
    type Err = ();

    fn from_str(input: &str) -> Result<PdfMetaField, ()> {
        match PdfMetaField::from_name(input) {
            Some(f) => Ok(f),
            None => Err(()),
        }
    }
}

} // verus!
