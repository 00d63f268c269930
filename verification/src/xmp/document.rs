//! XML documents as sequences of tokens, and the names in them.

use quick_xml::events::attributes::Attributes;
use quick_xml::events::Event;
use quick_xml::name::PrefixDeclaration;
use quick_xml::NsReader;
use vstd::prelude::*;

use crate::text::{bytes_of, same_bytes};

verus! {

// ---------------------------------------------------------------------------
// Tokens
// ---------------------------------------------------------------------------

/// What a token of a document is.
#[derive(Debug, Clone, Copy, PartialEq, Eq, Structural)]
pub enum XmlKind {
    Start,
    Empty,
    End,
    Text,
    CData,
    Comment,
    Decl,
    PI,
    DocType,
    Eof,
}

/// A token: its content is what stands between the delimiters of its kind.
pub struct XmlToken {
    pub kind: XmlKind,
    pub content: Vec<u8>,
    /// Bytes of the document read so far, not counting a byte order mark.
    pub end: usize,
}

/// A namespace prefix in scope; the default namespace has none.
pub struct XmlBinding {
    pub prefix: Option<Vec<u8>>,
    pub namespace: Vec<u8>,
}

/// An attribute with its raw value.
pub struct XmlAttribute {
    pub key: Vec<u8>,
    pub value: Vec<u8>,
}

/// Namespaces in scope, by prefix.
pub type ScopeModel = Seq<(Option<Seq<u8>>, Seq<u8>)>;

/// Attributes of a tag in order: name and raw value, or what is wrong with them.
pub type AttributesModel = Seq<Result<(Seq<u8>, Seq<u8>), Seq<char>>>;

/// A token with the namespaces in scope where it stands.
pub struct TokenModel {
    pub kind: XmlKind,
    pub content: Seq<u8>,
    pub end: int,
    pub scope: ScopeModel,
}

/// A document: its tokens up to the end, or up to what is wrong with it.
pub type DocumentModel = Seq<Result<TokenModel, Seq<char>>>;

/// Bytes that may be absent.
pub open spec fn opt_bytes(bytes: Option<Vec<u8>>) -> Option<Seq<u8>> {
    match bytes {
        Some(bytes) => Some(bytes@),
        None => None,
    }
}

/// Bindings over sequences.
pub open spec fn scope_model(bindings: Seq<XmlBinding>) -> ScopeModel {
    bindings.map_values(
        |binding: XmlBinding| (opt_bytes(binding.prefix), binding.namespace@),
    )
}

/// Attributes over sequences.
pub open spec fn attributes_model(attributes: Seq<Result<XmlAttribute, String>>) -> AttributesModel {
    attributes.map_values(
        |attribute: Result<XmlAttribute, String>|
            match attribute {
                Ok(attribute) => Ok((attribute.key@, attribute.value@)),
                Err(error) => Err(error@),
            },
    )
}

/// What a read gave, with the namespaces in scope after it.
pub open spec fn token_model(token: Result<XmlToken, String>, scope: ScopeModel) -> Result<
    TokenModel,
    Seq<char>,
> {
    match token {
        Ok(token) => Ok(
            TokenModel {
                kind: token.kind,
                content: token.content@,
                end: token.end as int,
                scope,
            },
        ),
        Err(error) => Err(error@),
    }
}

/// Whether a token is the last one of its document.
pub open spec fn ends_document(token: Result<TokenModel, Seq<char>>) -> bool {
    match token {
        Ok(token) => token.kind == XmlKind::Eof,
        Err(_) => true,
    }
}

/// Whether tokens end exactly where the document does.
pub open spec fn is_document(tokens: DocumentModel) -> bool {
    &&& tokens.len() > 0
    &&& forall|i: int|
        0 <= i < tokens.len() ==> (ends_document(#[trigger] tokens[i]) <==> i == tokens.len() - 1)
}

// ---------------------------------------------------------------------------
// The reader
// ---------------------------------------------------------------------------

/// `quick_xml::NsReader`, a reader of XML that tracks namespaces.
#[verifier::external_type_specification]
#[verifier::external_body]
#[verifier::reject_recursive_types(R)]
pub struct ExNsReader<R>(NsReader<R>);

/// The tokens of a text, up to the first one that is the end or an error.
pub uninterp spec fn document_of(xml: Seq<char>) -> DocumentModel;

/// The tokens that a reader has still to give.
pub uninterp spec fn tokens_left(reader: NsReader<&[u8]>) -> DocumentModel;

/// The namespaces in scope where a reader stands: prefixes that are bound, none
/// twice.
pub uninterp spec fn scope_of(reader: NsReader<&[u8]>) -> ScopeModel;

/// The attributes of a tag whose name takes the first `name_len` bytes.
pub uninterp spec fn attributes_of(content: Seq<u8>, name_len: int) -> AttributesModel;

/// A text with its entities replaced, if all of them are known.
pub uninterp spec fn unescaped(raw: Seq<u8>) -> Option<Seq<u8>>;

/// Wraps `quick_xml::NsReader::from_str` without trimming of text. The reader
/// has the tokens of the text to give: every read gives one, and they are counted
/// up to the end or the first error, one of which every text comes to.
#[verifier::external_body]
pub(crate) fn open_document(xml: &str) -> (reader: NsReader<&[u8]>)
    ensures
        tokens_left(reader) == document_of(xml@),
        is_document(tokens_left(reader)),
{
    let mut reader = NsReader::from_str(xml);
    reader.config_mut().trim_text(false);
    reader
}

/// Wraps `quick_xml::NsReader::read_event`, which gives the next token. It reads on
/// from where the reader stands and depends on nothing else. The namespaces in scope
/// afterwards are those of the token: a tag's own declarations leave the scope with
/// the read after it, or after its closing tag.
#[verifier::external_body]
pub(crate) fn next_token(reader: &mut NsReader<&[u8]>) -> (token: Result<XmlToken, String>)
    requires
        tokens_left(*old(reader)).len() > 0,
    ensures
        token_model(token, scope_of(*final(reader))) == tokens_left(*old(reader))[0],
        tokens_left(*final(reader)) == tokens_left(*old(reader)).drop_first(),
{
    let event = reader.read_event().map_err(|error| error.to_string())?;
    let kind = match event {
        Event::Start(_) => XmlKind::Start,
        Event::Empty(_) => XmlKind::Empty,
        Event::End(_) => XmlKind::End,
        Event::Text(_) => XmlKind::Text,
        Event::CData(_) => XmlKind::CData,
        Event::Comment(_) => XmlKind::Comment,
        Event::Decl(_) => XmlKind::Decl,
        Event::PI(_) => XmlKind::PI,
        Event::DocType(_) => XmlKind::DocType,
        Event::Eof => XmlKind::Eof,
    };
    Ok(XmlToken { kind, content: event.to_vec(), end: reader.buffer_position() as usize })
}

/// Wraps `quick_xml::NsReader::prefixes`, which lists the namespaces in scope.
#[verifier::external_body]
pub(crate) fn scope(reader: &NsReader<&[u8]>) -> (bindings: Vec<XmlBinding>)
    ensures
        scope_model(bindings@) == scope_of(*reader),
{
    reader
        .prefixes()
        .map(|(prefix, namespace)| XmlBinding {
            prefix: match prefix {
                PrefixDeclaration::Default => None,
                PrefixDeclaration::Named(name) => Some(name.to_vec()),
            },
            namespace: namespace.as_ref().to_vec(),
        })
        .collect()
}

/// Wraps the iterator `quick_xml::events::attributes::Attributes`, which gives
/// the attributes of a tag in order; the name of the tag lies within its content.
#[verifier::external_body]
pub(crate) fn tag_attributes(content: &[u8], name_len: usize) -> (attributes: Vec<
    Result<XmlAttribute, String>,
>)
    requires
        name_len <= content@.len(),
    ensures
        attributes_model(attributes@) == attributes_of(content@, name_len as int),
{
    Attributes::new(&String::from_utf8_lossy(content), name_len)
        .map(|attribute| match attribute {
            Ok(attribute) => Ok(XmlAttribute {
                key: attribute.key.as_ref().to_vec(),
                value: attribute.value.to_vec(),
            }),
            Err(error) => Err(error.to_string()),
        })
        .collect()
}

/// Whether a raw text is ASCII without an ampersand.
pub open spec fn is_plain_text(raw: Seq<u8>) -> bool {
    forall|i: int| 0 <= i < raw.len() ==> #[trigger] raw[i] < 0x80 && raw[i] != 0x26
}

/// What a raw text stands for: a plain one for itself, any other for what it says
/// with its entities replaced.
pub open spec fn text_of(raw: Seq<u8>) -> Option<Seq<u8>> {
    if is_plain_text(raw) {
        Some(raw)
    } else {
        unescaped(raw)
    }
}

/// Wraps `quick_xml::escape::unescape`, which replaces entities and fails on
/// unknown ones. An entity starts with an ampersand: plain text comes back as it
/// is.
#[verifier::external_body]
pub(crate) fn unescape(raw: &[u8]) -> (text: Option<Vec<u8>>)
    ensures
        opt_bytes(text) == unescaped(raw@),
        is_plain_text(raw@) ==> opt_bytes(text) == Some(raw@),
{
    let text = String::from_utf8_lossy(raw);
    match quick_xml::escape::unescape(&text) {
        Ok(text) => Some(text.into_owned().into_bytes()),
        Err(_) => None,
    }
}

// ---------------------------------------------------------------------------
// Names
// ---------------------------------------------------------------------------

/// The space characters of XML.
pub open spec fn is_space(byte: u8) -> bool {
    byte == 0x20 || byte == 0x09 || byte == 0x0D || byte == 0x0A
}

/// Length of the name that a tag's content starts with.
pub open spec fn name_len_of(content: Seq<u8>) -> int
    decreases content.len(),
{
    if content.len() == 0 || is_space(content[0]) {
        0
    } else {
        1 + name_len_of(content.drop_first())
    }
}

/// The name that a tag's content starts with.
pub open spec fn name_of(content: Seq<u8>) -> Seq<u8> {
    content.take(name_len_of(content))
}

/// Position of a byte, or the length where it does not occur.
pub open spec fn position_of(bytes: Seq<u8>, byte: u8) -> int
    decreases bytes.len(),
{
    if bytes.len() == 0 || bytes[0] == byte {
        0
    } else {
        1 + position_of(bytes.drop_first(), byte)
    }
}

/// The prefix of a qualified name: what stands before the first colon.
pub open spec fn prefix_of(name: Seq<u8>) -> Option<Seq<u8>> {
    let colon = position_of(name, 0x3A);
    if colon < name.len() {
        Some(name.take(colon))
    } else {
        None
    }
}

/// The local part of a qualified name.
pub open spec fn local_of(name: Seq<u8>) -> Seq<u8> {
    let colon = position_of(name, 0x3A);
    if colon < name.len() {
        name.skip(colon + 1)
    } else {
        name
    }
}

/// The namespace that a prefix is bound to.
pub open spec fn bound_to(scope: ScopeModel, prefix: Option<Seq<u8>>) -> Option<Seq<u8>>
    decreases scope.len(),
{
    if scope.len() == 0 {
        None
    } else if scope[0].0 == prefix {
        Some(scope[0].1)
    } else {
        bound_to(scope.drop_first(), prefix)
    }
}

/// Whether a namespace, as the document spells it, is the expected one.
pub open spec fn names_namespace(namespace: Seq<u8>, expected: Seq<u8>) -> bool {
    namespace == expected || (namespace.contains(0x26) && unescaped(namespace) == Some(expected))
}

/// Whether a prefix stands for a namespace.
pub open spec fn stands_for(scope: ScopeModel, prefix: Option<Seq<u8>>, expected: Seq<u8>) -> bool {
    match bound_to(scope, prefix) {
        Some(namespace) => names_namespace(namespace, expected),
        None => false,
    }
}

/// The XMP namespace.
pub open spec fn xmp_namespace() -> Seq<u8> {
    bytes_of("http://ns.adobe.com/xap/1.0/")
}

/// The RDF namespace.
pub open spec fn rdf_namespace() -> Seq<u8> {
    bytes_of("http://www.w3.org/1999/02/22-rdf-syntax-ns#")
}

/// Whether an element is an RDF description.
pub open spec fn is_description(scope: ScopeModel, name: Seq<u8>) -> bool {
    local_of(name) == bytes_of("Description") && stands_for(
        scope,
        prefix_of(name),
        rdf_namespace(),
    )
}

/// Whether an element is an XMP rating.
pub open spec fn is_rating_element(scope: ScopeModel, name: Seq<u8>) -> bool {
    local_of(name) == bytes_of("Rating") && stands_for(scope, prefix_of(name), xmp_namespace())
}

/// Whether an attribute is an XMP rating. The default namespace does not apply
/// to attributes.
pub open spec fn is_rating_attribute(scope: ScopeModel, name: Seq<u8>) -> bool {
    local_of(name) == bytes_of("Rating") && prefix_of(name) is Some && stands_for(
        scope,
        prefix_of(name),
        xmp_namespace(),
    )
}

proof fn lemma_position_of(bytes: Seq<u8>, byte: u8)
    ensures
        0 <= position_of(bytes, byte) <= bytes.len(),
    decreases bytes.len(),
{
    if bytes.len() > 0 && bytes[0] != byte {
        lemma_position_of(bytes.drop_first(), byte);
    }
}

/// The name of a tag lies within its content.
pub proof fn lemma_name_len(content: Seq<u8>)
    ensures
        0 <= name_len_of(content) <= content.len(),
    decreases content.len(),
{
    if content.len() > 0 && !is_space(content[0]) {
        lemma_name_len(content.drop_first());
    }
}

/// Length of the name that a tag's content starts with.
pub(crate) fn name_len(content: &[u8]) -> (len: usize)
    ensures
        len == name_len_of(content@),
        len <= content@.len(),
{
    let mut i: usize = 0;
    let total: usize = content.len();
    proof {
        lemma_name_len(content@);
        assert(content@.skip(0) =~= content@);
    }
    while i < total
        invariant
            total == content@.len(),
            i <= total,
            name_len_of(content@) == i + name_len_of(content@.skip(i as int)),
        decreases total - i,
    {
        let byte: u8 = content[i];
        if byte == 0x20 || byte == 0x09 || byte == 0x0D || byte == 0x0A {
            return i;
        }
        assert(content@.skip(i as int).drop_first() =~= content@.skip(i + 1));
        i += 1;
    }
    i
}

fn find_byte(bytes: &[u8], byte: u8) -> (at: usize)
    ensures
        at == position_of(bytes@, byte),
        at <= bytes@.len(),
{
    let mut i: usize = 0;
    let total: usize = bytes.len();
    proof {
        lemma_position_of(bytes@, byte);
        assert(bytes@.skip(0) =~= bytes@);
    }
    while i < total
        invariant
            total == bytes@.len(),
            i <= total,
            position_of(bytes@, byte) == i + position_of(bytes@.skip(i as int), byte),
        decreases total - i,
    {
        if bytes[i] == byte {
            return i;
        }
        assert(bytes@.skip(i as int).drop_first() =~= bytes@.skip(i + 1));
        i += 1;
    }
    i
}

fn has_byte(bytes: &[u8], byte: u8) -> (has: bool)
    ensures
        has == bytes@.contains(byte),
{
    let mut i: usize = 0;
    while i < bytes.len()
        invariant
            i <= bytes@.len(),
            forall|j: int| 0 <= j < i ==> bytes@[j] != byte,
        decreases bytes@.len() - i,
    {
        if bytes[i] == byte {
            assert(bytes@[i as int] == byte);
            return true;
        }
        i += 1;
    }
    false
}

/// Whether a namespace, as the document spells it, is the expected one.
pub(crate) fn is_namespace(namespace: &[u8], expected: &[u8]) -> (is: bool)
    ensures
        is == names_namespace(namespace@, expected@),
{
    if same_bytes(namespace, expected) {
        return true;
    }
    if !has_byte(namespace, 0x26) {
        return false;
    }
    match unescape(namespace) {
        Some(text) => same_bytes(text.as_slice(), expected),
        None => false,
    }
}

fn same_prefix(bound: &Option<Vec<u8>>, prefix: Option<&[u8]>) -> (same: bool)
    ensures
        same == (opt_bytes(*bound) == match prefix {
            Some(prefix) => Some(prefix@),
            None => None,
        }),
{
    match (bound, prefix) {
        (Some(bound), Some(prefix)) => same_bytes(bound.as_slice(), prefix),
        (None, None) => true,
        _ => false,
    }
}

fn prefix_stands_for(bindings: &Vec<XmlBinding>, prefix: Option<&[u8]>, expected: &[u8]) -> (stands:
    bool)
    ensures
        stands == stands_for(
            scope_model(bindings@),
            match prefix {
                Some(prefix) => Some(prefix@),
                None => None,
            },
            expected@,
        ),
{
    let ghost wanted: Option<Seq<u8>> = match prefix {
        Some(prefix) => Some(prefix@),
        None => None,
    };
    let ghost model = scope_model(bindings@);
    let mut i: usize = 0;
    proof {
        assert(model.skip(0) =~= model);
    }
    while i < bindings.len()
        invariant
            i <= bindings@.len(),
            model == scope_model(bindings@),
            wanted == match prefix {
                Some(prefix) => Some(prefix@),
                None => None,
            },
            bound_to(model, wanted) == bound_to(model.skip(i as int), wanted),
        decreases bindings@.len() - i,
    {
        let binding = &bindings[i];
        assert(model.skip(i as int)[0] == (opt_bytes(binding.prefix), binding.namespace@));
        if same_prefix(&binding.prefix, prefix) {
            return is_namespace(binding.namespace.as_slice(), expected);
        }
        assert(model.skip(i as int).drop_first() =~= model.skip(i + 1));
        i += 1;
    }
    false
}

fn name_is(
    bindings: &Vec<XmlBinding>,
    name: &[u8],
    local: &str,
    expected: &str,
    attribute: bool,
) -> (is: bool)
    ensures
        is == (local_of(name@) == bytes_of(local) && (attribute ==> prefix_of(name@) is Some)
            && stands_for(scope_model(bindings@), prefix_of(name@), bytes_of(expected))),
{
    let len: usize = name.len();
    let colon: usize = find_byte(name, 0x3A);
    if colon < len {
        let after = vstd::slice::slice_subrange(name, colon + 1, len);
        assert(after@ =~= local_of(name@));
        if !same_bytes(after, local.as_bytes()) {
            return false;
        }
        let prefix = vstd::slice::slice_subrange(name, 0, colon);
        assert(prefix@ =~= name@.take(colon as int));
        prefix_stands_for(bindings, Some(prefix), expected.as_bytes())
    } else {
        if attribute || !same_bytes(name, local.as_bytes()) {
            return false;
        }
        prefix_stands_for(bindings, None, expected.as_bytes())
    }
}

/// Whether an element is an RDF description.
pub(crate) fn is_rdf_description(bindings: &Vec<XmlBinding>, name: &[u8]) -> (is: bool)
    ensures
        is == is_description(scope_model(bindings@), name@),
{
    name_is(
        bindings,
        name,
        "Description",
        "http://www.w3.org/1999/02/22-rdf-syntax-ns#",
        false,
    )
}

/// Whether an element is an XMP rating.
pub(crate) fn is_xmp_rating_element(bindings: &Vec<XmlBinding>, name: &[u8]) -> (is: bool)
    ensures
        is == is_rating_element(scope_model(bindings@), name@),
{
    name_is(bindings, name, "Rating", "http://ns.adobe.com/xap/1.0/", false)
}

/// Whether an attribute is an XMP rating.
pub(crate) fn is_xmp_rating_attribute(bindings: &Vec<XmlBinding>, name: &[u8]) -> (is: bool)
    ensures
        is == is_rating_attribute(scope_model(bindings@), name@),
{
    name_is(bindings, name, "Rating", "http://ns.adobe.com/xap/1.0/", true)
}

} // verus!
