//! XMP sidecar reading and merge-preserving rating writes.
//!
//! Lightroom reads `xmp:Rating` (namespace `http://ns.adobe.com/xap/1.0/`) from
//! `.xmp` sidecars on import. It writes scalar properties as attributes on
//! `rdf:Description`; other tools (darktable) use the element form. Both are
//! read. Existing rating attributes use a byte-range splice so every non-value
//! byte passes through untouched. Element updates and new-property injection use
//! an XML event fallback that preserves semantic content but can change the
//! document's lexical representation.

use vstd::prelude::*;

use crate::text::{decimal, push_decimal};
use crate::xmp::read::{rating_texts, rating_texts_of, texts_model};
use crate::xmp::rewrite::{rewrite_update, update_rating_xml_fallback};
use crate::xmp::splice::{attribute_update, update_rating_attributes};

pub mod again;
pub mod document;
pub mod names;
pub mod read;
pub mod readback;
pub mod reading;
pub mod rewrite;
pub mod splice;

verus! {

/// Errors produced while updating or writing an XMP rating.
#[derive(Debug)]
pub enum XmpError {
    /// The sidecar could not be read, created, or atomically replaced.
    Io(String),
    /// Existing sidecar XML could not be safely interpreted or updated.
    Xml(String),
}

impl XmpError {
    /// The text of the error.
    pub fn message(&self) -> (text: String)
        ensures
            text@ == match *self {
                XmpError::Io(reason) => "io: "@ + reason@,
                XmpError::Xml(reason) => "xml: "@ + reason@,
            },
    {
        match self {
            XmpError::Io(reason) => {
                let mut text = String::from_str("io: ");
                text.append(reason.as_str());
                text
            },
            XmpError::Xml(reason) => {
                let mut text = String::from_str("xml: ");
                text.append(reason.as_str());
                text
            },
        }
    }
}

/// Whether `number` can make `rating` of a text.
pub open spec fn may_make<F: Fn(&[u8]) -> Option<u8>>(
    number: F,
    text: Seq<u8>,
    rating: Option<u8>,
) -> bool {
    exists|slice: &[u8]| slice@ == text && #[trigger] number.ensures((slice,), rating)
}

/// Whether a rating can be the first one that `number` makes of some texts.
pub open spec fn is_first_number<F: Fn(&[u8]) -> Option<u8>>(
    number: F,
    texts: Seq<Seq<u8>>,
    rating: Option<u8>,
) -> bool
    decreases texts.len(),
{
    if texts.len() == 0 {
        rating is None
    } else {
        ||| rating is Some && may_make(number, texts[0], rating)
        ||| may_make(number, texts[0], None) && is_first_number(number, texts.drop_first(), rating)
    }
}

/// Parse an XMP rating from a UTF-8 XML document.
///
/// Accepts an Adobe XMP `Rating` attribute on an RDF `Description`, or a direct
/// `Rating` child element of that description. Returns `None` for a rejected
/// document or missing/non-numeric rating. `number` makes a rating of a text, if
/// it is numeric. If several semantic ratings exist, the first one in document
/// order wins.
pub fn parse_rating<F: Fn(&[u8]) -> Option<u8>>(xml: &str, number: F) -> (rating: Option<u8>)
    requires
        forall|text: &[u8]| number.requires((text,)),
    ensures
        match rating_texts_of(xml@) {
            None => rating is None,
            Some(texts) => is_first_number(number, texts, rating),
        },
{
    let texts = match rating_texts(xml) {
        Some(texts) => texts,
        None => return None,
    };
    let ghost model = texts_model(texts@);
    let mut i: usize = 0;
    proof {
        assert(model.skip(0) =~= model);
    }
    while i < texts.len()
        invariant
            i <= texts@.len(),
            forall|text: &[u8]| number.requires((text,)),
            model == texts_model(texts@),
            rating_texts_of(xml@) == Some(model),
            forall|rating: Option<u8>|
                is_first_number(number, model.skip(i as int), rating)
                    ==> #[trigger] is_first_number(number, model, rating),
        decreases texts@.len() - i,
    {
        let ghost rest = model.skip(i as int);
        let slice = texts[i].as_slice();
        let rating: Option<u8> = number(slice);
        assert(rest[0] == slice@);
        assert(may_make(number, rest[0], rating));
        if rating.is_some() {
            assert(is_first_number(number, rest, rating));
            return rating;
        }
        assert(rest.drop_first() =~= model.skip(i + 1));
        i += 1;
    }
    assert(is_first_number(number, model.skip(i as int), None));
    None
}

/// Wraps `String::from_utf8`: the text of the bytes where they are UTF-8, else
/// an error.
#[verifier::external_body]
fn utf8_text(bytes: Vec<u8>) -> (text: Result<String, String>)
    ensures
        match text {
            Ok(text) => vstd::utf8::encode_utf8(text@) == bytes@,
            Err(_) => !vstd::utf8::valid_utf8(bytes@),
        },
{
    String::from_utf8(bytes).map_err(|error| error.to_string())
}

/// The bytes of the updated document: a splice of its rating attributes where
/// that is all there is, else a rewrite.
pub open spec fn updated_bytes(xml: Seq<char>, rating: u8) -> Result<Seq<u8>, Seq<char>> {
    match attribute_update(xml, rating) {
        Err(error) => Err(error),
        Ok(Some(updated)) => Ok(updated),
        Ok(None) => rewrite_update(xml, rating),
    }
}

/// Whether an update has the given outcome. Bytes that are not UTF-8 are an
/// error of their own.
pub open spec fn is_updated(
    expected: Result<Seq<u8>, Seq<char>>,
    updated: Result<String, XmpError>,
) -> bool {
    match expected {
        Err(error) => updated matches Err(XmpError::Xml(text)) && text@ == error,
        Ok(bytes) => match updated {
            Ok(text) => vstd::utf8::encode_utf8(text@) == bytes,
            Err(error) => error is Xml && !vstd::utf8::valid_utf8(bytes),
        },
    }
}

/// Update the semantic `xmp:Rating` property inside existing sidecar XML.
///
/// Existing rating attributes are changed with byte-range splices that preserve
/// every other input byte. Element updates and new-property injection preserve
/// semantic content but can reserialize XML.
///
/// # Errors
///
/// Returns [`XmpError::Xml`] when `xml` is malformed or contains no RDF
/// `Description` that can own the rating property.
pub fn update_rating_xml(xml: &str, rating: u8) -> (updated: Result<String, XmpError>)
    ensures
        is_updated(updated_bytes(xml@, rating), updated),
{
    let bytes = match update_rating_attributes(xml, rating) {
        Err(error) => return Err(XmpError::Xml(error)),
        Ok(Some(bytes)) => bytes,
        Ok(None) => match update_rating_xml_fallback(xml, rating) {
            Ok(bytes) => bytes,
            Err(error) => return Err(XmpError::Xml(error)),
        },
    };
    match utf8_text(bytes) {
        Ok(text) => Ok(text),
        Err(error) => Err(XmpError::Xml(error)),
    }
}

/// A minimal sidecar with a rating.
pub open spec fn new_sidecar_chars(rating: u8) -> Seq<char> {
    "<?xpacket begin=\"\u{FEFF}\" id=\"W5M0MpCehiHzreSzNTczkc9d\"?>\n<x:xmpmeta xmlns:x=\"adobe:ns:meta/\" x:xmptk=\"viewr\">\n <rdf:RDF xmlns:rdf=\"http://www.w3.org/1999/02/22-rdf-syntax-ns#\">\n  <rdf:Description rdf:about=\"\"\n    xmlns:xmp=\"http://ns.adobe.com/xap/1.0/\"\n   xmp:Rating=\""@
        + decimal(rating as nat) + "\"/>\n </rdf:RDF>\n</x:xmpmeta>\n<?xpacket end=\"w\"?>"@
}

/// Creates a minimal sidecar with a rating.
pub fn new_sidecar(rating: u8) -> (xml: String)
    ensures
        xml@ == new_sidecar_chars(rating),
{
    let mut xml = String::from_str(
        "<?xpacket begin=\"\u{FEFF}\" id=\"W5M0MpCehiHzreSzNTczkc9d\"?>\n<x:xmpmeta xmlns:x=\"adobe:ns:meta/\" x:xmptk=\"viewr\">\n <rdf:RDF xmlns:rdf=\"http://www.w3.org/1999/02/22-rdf-syntax-ns#\">\n  <rdf:Description rdf:about=\"\"\n    xmlns:xmp=\"http://ns.adobe.com/xap/1.0/\"\n   xmp:Rating=\"",
    );
    push_decimal(&mut xml, rating as u64);
    xml.append("\"/>\n </rdf:RDF>\n</x:xmpmeta>\n<?xpacket end=\"w\"?>");
    xml
}

/// The new content of a sidecar: an update of what it holds, or a minimal
/// sidecar where there is none.
///
/// # Errors
///
/// Returns [`XmpError::Xml`] when the existing content cannot be updated.
pub fn rated_sidecar(existing: Option<&str>, rating: u8) -> (content: Result<String, XmpError>)
    ensures
        match existing {
            Some(xml) => is_updated(updated_bytes(xml@, rating), content),
            None => content matches Ok(xml) && xml@ == new_sidecar_chars(rating),
        },
{
    match existing {
        Some(xml) => update_rating_xml(xml, rating),
        None => Ok(new_sidecar(rating)),
    }
}

} // verus!
