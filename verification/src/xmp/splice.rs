//! Replacement of rating attribute values that leaves every other byte alone.

use quick_xml::NsReader;
use vstd::prelude::*;
use vstd::slice::slice_subrange;

use crate::text::{append_bytes, bytes_of, decimal, push_decimal, same_bytes};
use crate::xmp::document::{
    attributes_model, attributes_of, document_of, ends_document, is_description, is_document,
    is_rating_attribute, is_rating_element, is_rdf_description, is_space, is_xmp_rating_attribute,
    is_xmp_rating_element, name_len, name_len_of, name_of, next_token,
    open_document, scope, scope_model, tag_attributes, token_model, tokens_left, AttributesModel,
    DocumentModel, ScopeModel, TokenModel, XmlAttribute, XmlBinding, XmlKind, XmlToken,
};
use crate::xmp::read::{first_error, in_description, tag_name, validate_attributes};

verus! {

// ---------------------------------------------------------------------------
// The rules
// ---------------------------------------------------------------------------

/// A range of bytes.
pub type SpanModel = (int, int);

/// First position from `at` on that is not a space.
pub open spec fn skip_spaces(bytes: Seq<u8>, at: int) -> int
    decreases bytes.len() - at,
{
    if 0 <= at < bytes.len() && is_space(bytes[at]) {
        skip_spaces(bytes, at + 1)
    } else {
        at
    }
}

/// Whether `part` stands at a position.
pub open spec fn stands_at(bytes: Seq<u8>, at: int, part: Seq<u8>) -> bool {
    0 <= at && at + part.len() <= bytes.len() && bytes.subrange(at, at + part.len()) == part
}

/// Where a value starts in a tag whose next attribute from `at` on has the given
/// name and value: name, equals sign, and the value in quotes, with spaces
/// between them.
pub open spec fn value_at(content: Seq<u8>, at: int, key: Seq<u8>, value: Seq<u8>) -> Option<int> {
    let name = skip_spaces(content, at);
    let equals = skip_spaces(content, name + key.len());
    let quote = skip_spaces(content, equals + 1);
    if stands_at(content, name, key) && equals < content.len() && content[equals] == 0x3D && quote
        < content.len() && (content[quote] == 0x22 || content[quote] == 0x27) && stands_at(
        content,
        quote + 1,
        value,
    ) && quote + 1 + value.len() < content.len() && content[quote + 1 + value.len()]
        == content[quote] {
        Some(quote + 1)
    } else {
        None
    }
}

/// What is known of a tag after some of its attributes.
pub struct TagModel {
    /// Where the next attribute is looked for, as long as all were found.
    pub cursor: Option<int>,
    /// Where the rating's value stands in the tag.
    pub rating: Option<SpanModel>,
}

/// Finds the value of a description's rating attribute in its tag. Malformed
/// attributes, two ratings, and a value that is not where the tag says are
/// errors.
pub open spec fn tag_span(
    scope: ScopeModel,
    content: Seq<u8>,
    attributes: AttributesModel,
) -> Result<TagModel, Seq<char>>
    decreases attributes.len(),
{
    if attributes.len() == 0 {
        Ok(TagModel { cursor: Some(name_len_of(content)), rating: None })
    } else {
        match (tag_span(scope, content, attributes.drop_last()), attributes.last()) {
            (Err(error), _) => Err(error),
            (_, Err(error)) => Err(error),
            (Ok(before), Ok((key, value))) => {
                let found = match before.cursor {
                    Some(at) => value_at(content, at, key, value),
                    None => None,
                };
                let cursor = match found {
                    Some(start) => Some(start + value.len() + 1),
                    None => None,
                };
                if !is_rating_attribute(scope, key) {
                    Ok(TagModel { cursor, rating: before.rating })
                } else if before.rating is Some {
                    Err("duplicate XMP rating attributes on one element"@)
                } else {
                    match found {
                        Some(start) => Ok(
                            TagModel { cursor, rating: Some((start, start + value.len())) },
                        ),
                        None => Err("rating attribute is outside the input"@),
                    }
                }
            },
        }
    }
}

/// Length of a byte order mark at the start of a document.
pub open spec fn mark_len(doc: Seq<u8>) -> int {
    if doc.len() >= 3 && doc[0] == 0xEF && doc[1] == 0xBB && doc[2] == 0xBF {
        3
    } else {
        0
    }
}

/// Where a tag's content starts in the document, if it does stand there.
pub open spec fn content_at(doc: Seq<u8>, token: TokenModel) -> Option<int> {
    let tail: int = if token.kind == XmlKind::Empty {
        2
    } else {
        1
    };
    let start = mark_len(doc) + token.end - tail - token.content.len();
    if stands_at(doc, start, token.content) {
        Some(start)
    } else {
        None
    }
}

/// The rating value of a tag in the document.
pub open spec fn token_span(doc: Seq<u8>, token: TokenModel) -> Result<
    Option<SpanModel>,
    Seq<char>,
> {
    let attributes = attributes_of(token.content, name_len_of(token.content));
    if is_description(token.scope, name_of(token.content)) {
        match tag_span(token.scope, token.content, attributes) {
            Err(error) => Err(error),
            Ok(tag) => match tag.rating {
                None => Ok(None),
                Some((start, end)) => match content_at(doc, token) {
                    Some(at) => Ok(Some((at + start, at + end))),
                    None => Err("rating attribute is outside the input"@),
                },
            },
        }
    } else {
        match first_error(attributes) {
            Some(error) => Err(error),
            None => Ok(None),
        }
    }
}

/// What has been found in a document.
#[verifier::ext_equal]
pub struct SpliceModel {
    /// For each open element, whether it is an RDF description.
    pub open: Seq<bool>,
    /// Whether a rating element was seen.
    pub element: bool,
    /// Values of the rating attributes.
    pub spans: Seq<SpanModel>,
}

/// The state after a token.
pub open spec fn scan_token(doc: Seq<u8>, model: SpliceModel, token: TokenModel) -> Result<
    SpliceModel,
    Seq<char>,
> {
    let name = name_of(token.content);
    if token.kind == XmlKind::Start || token.kind == XmlKind::Empty {
        match token_span(doc, token) {
            Err(error) => Err(error),
            Ok(span) => Ok(
                SpliceModel {
                    open: if token.kind == XmlKind::Start {
                        model.open.push(is_description(token.scope, name))
                    } else {
                        model.open
                    },
                    element: model.element || (in_description(model.open) && is_rating_element(
                        token.scope,
                        name,
                    )),
                    spans: match span {
                        Some(span) => model.spans.push(span),
                        None => model.spans,
                    },
                },
            ),
        }
    } else if token.kind == XmlKind::End {
        if model.open.len() == 0 {
            Err("unexpected closing element"@)
        } else {
            Ok(SpliceModel { open: model.open.drop_last(), ..model })
        }
    } else {
        Ok(model)
    }
}

/// What is found in a document from some token on.
pub open spec fn scan_from(doc: Seq<u8>, tokens: DocumentModel, model: SpliceModel) -> Result<
    SpliceModel,
    Seq<char>,
>
    decreases tokens.len(),
{
    if tokens.len() == 0 {
        Err("unexpected end of document"@)
    } else {
        match tokens[0] {
            Err(error) => Err(error),
            Ok(token) => if token.kind == XmlKind::Eof {
                if model.open.len() == 0 {
                    Ok(model)
                } else {
                    Err("unexpected end of document"@)
                }
            } else {
                match scan_token(doc, model, token) {
                    Ok(next) => scan_from(doc, tokens.drop_first(), next),
                    Err(error) => Err(error),
                }
            },
        }
    }
}

/// The document from `cursor` on with each span replaced by `value`.
pub open spec fn spliced(
    doc: Seq<u8>,
    spans: Seq<SpanModel>,
    value: Seq<u8>,
    cursor: int,
) -> Option<Seq<u8>>
    decreases spans.len(),
{
    if spans.len() == 0 {
        Some(doc.skip(cursor))
    } else if spans[0].0 < cursor {
        None
    } else {
        match spliced(doc, spans.drop_first(), value, spans[0].1) {
            Some(rest) => Some(doc.subrange(cursor, spans[0].0) + value + rest),
            None => None,
        }
    }
}

/// Before the first token.
pub open spec fn scan_nothing() -> SpliceModel {
    SpliceModel { open: seq![], element: false, spans: seq![] }
}

/// The bytes of a rating.
pub open spec fn rating_bytes(rating: u8) -> Seq<u8> {
    vstd::utf8::encode_utf8(decimal(rating as nat))
}

/// The update of a document that has rating attributes and no rating element.
/// Any other well-formed document has none.
pub open spec fn attribute_update(xml: Seq<char>, rating: u8) -> Result<Option<Seq<u8>>, Seq<char>> {
    let doc = vstd::utf8::encode_utf8(xml);
    match scan_from(doc, document_of(xml), scan_nothing()) {
        Err(error) => Err(error),
        Ok(found) => if found.element || found.spans.len() == 0 {
            Ok(None)
        } else {
            match spliced(doc, found.spans, rating_bytes(rating), 0) {
                Some(updated) => Ok(Some(updated)),
                None => Err("overlapping rating attributes"@),
            }
        },
    }
}

// ---------------------------------------------------------------------------
// Replacement
// ---------------------------------------------------------------------------

/// A range of bytes in the document.
#[derive(Debug, Clone, Copy, PartialEq, Eq, Structural)]
struct ByteSpan {
    start: usize,
    end: usize,
}

spec fn spans_model(spans: Seq<ByteSpan>) -> Seq<SpanModel> {
    spans.map_values(|span: ByteSpan| (span.start as int, span.end as int))
}

spec fn spans_fit(spans: Seq<ByteSpan>, len: int) -> bool {
    forall|i: int| 0 <= i < spans.len() ==> (#[trigger] spans[i]).start <= spans[i].end <= len
}

struct SpliceState {
    open: Vec<bool>,
    element: bool,
    spans: Vec<ByteSpan>,
}

impl View for SpliceState {
    type V = SpliceModel;

    closed spec fn view(&self) -> SpliceModel {
        SpliceModel {
            open: self.open@,
            element: self.element,
            spans: spans_model(self.spans@),
        }
    }
}

fn skip_space(bytes: &[u8], from: usize) -> (at: usize)
    ensures
        at == skip_spaces(bytes@, from as int),
        from <= at,
        from <= bytes@.len() ==> at <= bytes@.len(),
{
    let mut at: usize = from;
    while at < bytes.len()
        invariant
            from <= at,
            from <= bytes@.len() ==> at <= bytes@.len(),
            skip_spaces(bytes@, from as int) == skip_spaces(bytes@, at as int),
        decreases bytes@.len() - at,
    {
        let byte: u8 = bytes[at];
        if !(byte == 0x20 || byte == 0x09 || byte == 0x0D || byte == 0x0A) {
            return at;
        }
        at += 1;
    }
    at
}

fn has_part(bytes: &[u8], at: usize, part: &[u8]) -> (has: bool)
    ensures
        has == stands_at(bytes@, at as int, part@),
{
    let len: usize = bytes.len();
    if at > len || part.len() > len - at {
        return false;
    }
    same_bytes(slice_subrange(bytes, at, at + part.len()), part)
}

fn find_value(content: &[u8], from: usize, key: &[u8], value: &[u8]) -> (start: Option<usize>)
    requires
        from <= content@.len(),
    ensures
        match start {
            Some(start) => value_at(content@, from as int, key@, value@) == Some(start as int)
                && start + value@.len() < content@.len(),
            None => value_at(content@, from as int, key@, value@) is None,
        },
{
    let len: usize = content.len();
    let name: usize = skip_space(content, from);
    if !has_part(content, name, key) {
        return None;
    }
    let equals: usize = skip_space(content, name + key.len());
    if equals >= len || content[equals] != 0x3D {
        return None;
    }
    let quote: usize = skip_space(content, equals + 1);
    if quote >= len || !(content[quote] == 0x22 || content[quote] == 0x27) || !has_part(
        content,
        quote + 1,
        value,
    ) {
        return None;
    }
    let end: usize = quote + 1 + value.len();
    if end >= len || content[end] != content[quote] {
        return None;
    }
    Some(quote + 1)
}

spec fn opt_cursor(cursor: Option<usize>) -> Option<int> {
    match cursor {
        Some(at) => Some(at as int),
        None => None,
    }
}

spec fn opt_span(span: Option<ByteSpan>) -> Option<SpanModel> {
    match span {
        Some(span) => Some((span.start as int, span.end as int)),
        None => None,
    }
}

proof fn lemma_tag_error(
    names: ScopeModel,
    content: Seq<u8>,
    attributes: AttributesModel,
    n: int,
    error: Seq<char>,
)
    requires
        0 <= n <= attributes.len(),
        tag_span(names, content, attributes.take(n)) == Err::<TagModel, Seq<char>>(error),
    ensures
        tag_span(names, content, attributes) == Err::<TagModel, Seq<char>>(error),
    decreases attributes.len() - n,
{
    if n < attributes.len() {
        assert(attributes.take(n + 1).drop_last() =~= attributes.take(n));
        lemma_tag_error(names, content, attributes, n + 1, error);
    } else {
        assert(attributes.take(n) =~= attributes);
    }
}

/// Finds the value of a description's rating attribute in its tag.
fn find_tag_span(
    bindings: &Vec<XmlBinding>,
    content: &Vec<u8>,
    attributes: &Vec<Result<XmlAttribute, String>>,
) -> (span: Result<Option<ByteSpan>, String>)
    ensures
        match tag_span(scope_model(bindings@), content@, attributes_model(attributes@)) {
            Ok(tag) => span matches Ok(found) && opt_span(found) == tag.rating && (found matches Some(
                within,
            ) ==> within.start <= within.end <= content@.len()),
            Err(error) => span matches Err(text) && text@ == error,
        },
{
    let ghost names = scope_model(bindings@);
    let ghost model = attributes_model(attributes@);
    let len: usize = content.len();
    let mut cursor: Option<usize> = Some(name_len(content.as_slice()));
    let mut rating: Option<ByteSpan> = None;
    let mut i: usize = 0;
    proof {
        assert(model.take(0) =~= seq![]);
    }
    while i < attributes.len()
        invariant
            i <= attributes@.len(),
            len == content@.len(),
            names == scope_model(bindings@),
            model == attributes_model(attributes@),
            tag_span(names, content@, model.take(i as int)) == Ok::<TagModel, Seq<char>>(
                TagModel { cursor: opt_cursor(cursor), rating: opt_span(rating) },
            ),
            cursor matches Some(at) ==> at <= len,
            rating matches Some(within) ==> within.start <= within.end <= len,
        decreases attributes@.len() - i,
    {
        proof {
            assert(model.take(i + 1).drop_last() =~= model.take(i as int));
            assert(model.take(i + 1).last() == model[i as int]);
        }
        match &attributes[i] {
            Err(error) => {
                proof {
                    lemma_tag_error(names, content@, model, i + 1, error@);
                }
                return Err(error.clone());
            },
            Ok(attribute) => {
                let found: Option<usize> = match cursor {
                    Some(at) => find_value(
                        content.as_slice(),
                        at,
                        attribute.key.as_slice(),
                        attribute.value.as_slice(),
                    ),
                    None => None,
                };
                let next: Option<usize> = match found {
                    Some(start) => Some(start + attribute.value.len() + 1),
                    None => None,
                };
                if is_xmp_rating_attribute(bindings, attribute.key.as_slice()) {
                    if rating.is_some() {
                        proof {
                            lemma_tag_error(
                                names,
                                content@,
                                model,
                                i + 1,
                                "duplicate XMP rating attributes on one element"@,
                            );
                        }
                        return Err(
                            String::from_str("duplicate XMP rating attributes on one element"),
                        );
                    }
                    match found {
                        Some(start) => {
                            rating = Some(ByteSpan { start, end: start + attribute.value.len() });
                        },
                        None => {
                            proof {
                                lemma_tag_error(
                                    names,
                                    content@,
                                    model,
                                    i + 1,
                                    "rating attribute is outside the input"@,
                                );
                            }
                            return Err(String::from_str("rating attribute is outside the input"));
                        },
                    }
                }
                cursor = next;
            },
        }
        i += 1;
    }
    assert(model.take(i as int) =~= model);
    Ok(rating)
}

fn mark(doc: &[u8]) -> (len: usize)
    ensures
        len == mark_len(doc@),
        len <= 3,
{
    if doc.len() >= 3 && doc[0] == 0xEF && doc[1] == 0xBB && doc[2] == 0xBF {
        3
    } else {
        0
    }
}

/// Finds where a tag's content starts in the document.
fn find_content(doc: &[u8], token: &XmlToken, Ghost(names): Ghost<ScopeModel>) -> (start: Option<
    usize,
>)
    ensures
        ({
            let model = TokenModel {
                kind: token.kind,
                content: token.content@,
                end: token.end as int,
                scope: names,
            };
            match start {
                Some(start) => content_at(doc@, model) == Some(start as int) && start
                    + token.content@.len() <= doc@.len(),
                None => content_at(doc@, model) is None,
            }
        }),
{
    let tail: usize = if token.kind == XmlKind::Empty {
        2
    } else {
        1
    };
    let doc_len: usize = doc.len();
    let len: usize = token.content.len();
    let end: u128 = token.end as u128 + mark(doc) as u128;
    if end < tail as u128 + len as u128 {
        return None;
    }
    let start: u128 = end - tail as u128 - len as u128;
    if start > doc_len as u128 {
        return None;
    }
    let start: usize = start as usize;
    if has_part(doc, start, token.content.as_slice()) {
        Some(start)
    } else {
        None
    }
}

/// Finds the rating value of a tag in the document.
fn find_token_span(
    doc: &[u8],
    token: &XmlToken,
    bindings: &Vec<XmlBinding>,
    description: bool,
) -> (span: Result<Option<ByteSpan>, String>)
    requires
        description == is_description(scope_model(bindings@), name_of(token.content@)),
    ensures
        ({
            let model = TokenModel {
                kind: token.kind,
                content: token.content@,
                end: token.end as int,
                scope: scope_model(bindings@),
            };
            match token_span(doc@, model) {
                Ok(expected) => span matches Ok(found) && opt_span(found) == expected && (
                found matches Some(within) ==> within.start <= within.end <= doc@.len()),
                Err(error) => span matches Err(text) && text@ == error,
            }
        }),
{
    let doc_len: usize = doc.len();
    let len: usize = name_len(token.content.as_slice());
    let attributes = tag_attributes(token.content.as_slice(), len);
    if !description {
        return match validate_attributes(&attributes) {
            Ok(()) => Ok(None),
            Err(error) => Err(error),
        };
    }
    match find_tag_span(bindings, &token.content, &attributes) {
        Err(error) => Err(error),
        Ok(None) => Ok(None),
        Ok(Some(span)) => match find_content(doc, token, Ghost(scope_model(bindings@))) {
            Some(at) => Ok(Some(ByteSpan { start: at + span.start, end: at + span.end })),
            None => Err(String::from_str("rating attribute is outside the input")),
        },
    }
}

impl SpliceState {
    /// Takes a token other than the end of the document.
    fn scan(&mut self, doc: &[u8], token: &XmlToken, bindings: &Vec<XmlBinding>) -> (scanned: Result<
        (),
        String,
    >)
        requires
            spans_fit(old(self).spans@, doc@.len() as int),
        ensures
            ({
                let model = TokenModel {
                    kind: token.kind,
                    content: token.content@,
                    end: token.end as int,
                    scope: scope_model(bindings@),
                };
                match scan_token(doc@, old(self)@, model) {
                    Ok(next) => scanned is Ok && final(self)@ == next && spans_fit(
                        final(self).spans@,
                        doc@.len() as int,
                    ),
                    Err(error) => scanned matches Err(text) && text@ == error,
                }
            }),
    {
        let ghost before = self@;
        if token.kind == XmlKind::Start || token.kind == XmlKind::Empty {
            let name = tag_name(&token.content);
            let description: bool = is_rdf_description(bindings, name);
            let depth: usize = self.open.len();
            let rating: bool = depth > 0 && self.open[depth - 1] && is_xmp_rating_element(
                bindings,
                name,
            );
            match find_token_span(doc, token, bindings, description) {
                Err(error) => {
                    return Err(error);
                },
                Ok(Some(span)) => {
                    self.spans.push(span);
                    assert(self@.spans =~= before.spans.push(
                        (span.start as int, span.end as int),
                    ));
                },
                Ok(None) => {},
            }
            if rating {
                self.element = true;
            }
            if token.kind == XmlKind::Start {
                self.open.push(description);
            }
            Ok(())
        } else if token.kind == XmlKind::End {
            if self.open.len() == 0 {
                return Err(String::from_str("unexpected closing element"));
            }
            self.open.pop();
            assert(self@.open =~= before.open.drop_last());
            Ok(())
        } else {
            Ok(())
        }
    }
}

/// Finds all rating attributes of a document.
fn scan_document(xml: &str) -> (found: Result<SpliceState, String>)
    ensures
        match scan_from(bytes_of(xml), document_of(xml@), scan_nothing()) {
            Ok(model) => found matches Ok(state) && state@ == model && spans_fit(
                state.spans@,
                bytes_of(xml).len() as int,
            ),
            Err(error) => found matches Err(text) && text@ == error,
        },
{
    let doc = xml.as_bytes();
    let mut reader: NsReader<&[u8]> = open_document(xml);
    let mut state = SpliceState { open: Vec::new(), element: false, spans: Vec::new() };
    assert(state@ =~= scan_nothing());
    loop
        invariant
            doc@ == bytes_of(xml),
            is_document(tokens_left(reader)),
            spans_fit(state.spans@, doc@.len() as int),
            scan_from(doc@, document_of(xml@), scan_nothing()) == scan_from(
                doc@,
                tokens_left(reader),
                state@,
            ),
        decreases tokens_left(reader).len(),
    {
        let ghost left = tokens_left(reader);
        let read = next_token(&mut reader);
        let ghost names = crate::xmp::document::scope_of(reader);
        assert(token_model(read, names) == left[0]);
        match read {
            Err(error) => {
                return Err(error);
            },
            Ok(token) => {
                if token.kind == XmlKind::Eof {
                    assert(state@.open.len() == state.open@.len());
                    return if state.open.len() == 0 {
                        Ok(state)
                    } else {
                        Err(String::from_str("unexpected end of document"))
                    };
                }
                let bindings = scope(&reader);
                match state.scan(doc, &token, &bindings) {
                    Ok(()) => {},
                    Err(error) => {
                        return Err(error);
                    },
                }
                proof {
                    assert forall|i: int| 0 <= i < left.drop_first().len() implies (ends_document(
                        #[trigger] left.drop_first()[i],
                    ) <==> i == left.drop_first().len() - 1) by {
                        assert(left.drop_first()[i] == left[i + 1]);
                    }
                }
            },
        }
    }
}

/// Replaces spans of a document.
fn splice(doc: &[u8], spans: &Vec<ByteSpan>, value: &[u8]) -> (updated: Option<Vec<u8>>)
    requires
        spans_fit(spans@, doc@.len() as int),
    ensures
        match spliced(doc@, spans_model(spans@), value@, 0) {
            Some(expected) => updated matches Some(made) && made@ == expected,
            None => updated is None,
        },
{
    let ghost model = spans_model(spans@);
    let ghost whole = spliced(doc@, model, value@, 0);
    let mut out: Vec<u8> = Vec::new();
    let mut cursor: usize = 0;
    let mut i: usize = 0;
    proof {
        assert(model.skip(0) =~= model);
        if let Some(expected) = whole {
            assert(out@ + expected =~= expected);
        }
    }
    while i < spans.len()
        invariant
            i <= spans@.len(),
            spans_fit(spans@, doc@.len() as int),
            model == spans_model(spans@),
            whole == spliced(doc@, model, value@, 0),
            cursor <= doc@.len(),
            match spliced(doc@, model.skip(i as int), value@, cursor as int) {
                Some(rest) => whole == Some(out@ + rest),
                None => whole is None,
            },
        decreases spans@.len() - i,
    {
        let span = spans[i];
        let ghost rest = model.skip(i as int);
        assert(rest[0] == (span.start as int, span.end as int));
        assert(rest.drop_first() =~= model.skip(i + 1));
        if span.start < cursor {
            return None;
        }
        let ghost before = out@;
        append_bytes(&mut out, slice_subrange(doc, cursor, span.start));
        append_bytes(&mut out, value);
        proof {
            if let Some(tail) = spliced(doc@, rest.drop_first(), value@, span.end as int) {
                assert(before + (doc@.subrange(cursor as int, span.start as int) + value@ + tail)
                    =~= out@ + tail);
            }
        }
        cursor = span.end;
        i += 1;
    }
    let ghost before = out@;
    let len: usize = doc.len();
    append_bytes(&mut out, slice_subrange(doc, cursor, len));
    proof {
        assert(doc@.subrange(cursor as int, len as int) =~= doc@.skip(cursor as int));
        assert(model.skip(i as int).len() == 0);
    }
    Some(out)
}

/// The decimal digits of a rating.
pub(crate) fn rating_text(rating: u8) -> (text: String)
    ensures
        text@ == decimal(rating as nat),
{
    let mut text = String::new();
    push_decimal(&mut text, rating as u64);
    assert(text@ =~= decimal(rating as nat));
    text
}

/// Scans the complete document and replaces existing rating attribute values.
/// Returns nothing when a rating element is also present or no rating attribute
/// was found; those less common shapes take the general rewrite.
pub(crate) fn update_rating_attributes(xml: &str, rating: u8) -> (updated: Result<
    Option<Vec<u8>>,
    String,
>)
    ensures
        match attribute_update(xml@, rating) {
            Ok(Some(expected)) => updated matches Ok(Some(made)) && made@ == expected,
            Ok(None) => updated matches Ok(None),
            Err(error) => updated matches Err(text) && text@ == error,
        },
{
    let state = match scan_document(xml) {
        Ok(state) => state,
        Err(error) => return Err(error),
    };
    assert(state@.spans.len() == state.spans@.len());
    if state.element || state.spans.len() == 0 {
        return Ok(None);
    }
    let value = rating_text(rating);
    match splice(xml.as_bytes(), &state.spans, value.as_str().as_bytes()) {
        Some(updated) => Ok(Some(updated)),
        None => Err(String::from_str("overlapping rating attributes")),
    }
}

// ---------------------------------------------------------------------------
// Laws
// ---------------------------------------------------------------------------

/// How far bytes move that stand behind some replaced spans.
pub open spec fn shift(spans: Seq<SpanModel>, value_len: int, n: int) -> int
    decreases n,
{
    if n <= 0 {
        0
    } else {
        shift(spans, value_len, n - 1) + value_len - (spans[n - 1].1 - spans[n - 1].0)
    }
}

proof fn lemma_shift_rest(spans: Seq<SpanModel>, value_len: int, n: int)
    requires
        1 <= n <= spans.len(),
    ensures
        shift(spans, value_len, n) == value_len - (spans[0].1 - spans[0].0) + shift(
            spans.drop_first(),
            value_len,
            n - 1,
        ),
    decreases n,
{
    reveal_with_fuel(shift, 2);
    if n > 1 {
        lemma_shift_rest(spans, value_len, n - 1);
        assert(spans.drop_first()[n - 2] == spans[n - 1]);
    }
}

/// A byte outside every replaced span keeps its value, and every span holds the
/// new value afterwards; positions move only by what the spans before them grew.
pub proof fn law_splice_touches_only_the_spans(
    doc: Seq<u8>,
    spans: Seq<SpanModel>,
    value: Seq<u8>,
    cursor: int,
    n: int,
    at: int,
)
    requires
        spliced(doc, spans, value, cursor) is Some,
        0 <= cursor <= doc.len(),
        forall|i: int|
            0 <= i < spans.len() ==> (#[trigger] spans[i]).0 <= spans[i].1 <= doc.len(),
        0 <= n <= spans.len(),
        // Behind the first `n` spans, and before the next one.
        (if n == 0 {
            cursor
        } else {
            spans[n - 1].1
        }) <= at < (if n == spans.len() {
            doc.len() as int
        } else {
            spans[n].0
        }),
    ensures
        ({
            let updated = spliced(doc, spans, value, cursor)->0;
            let to = at - cursor + shift(spans, value.len() as int, n);
            &&& 0 <= to < updated.len()
            &&& updated[to] == doc[at]
        }),
    decreases spans.len(),
{
    if spans.len() > 0 {
        let rest = spans.drop_first();
        let tail = spliced(doc, rest, value, spans[0].1)->0;
        let head = doc.subrange(cursor, spans[0].0);
        if n > 0 {
            assert forall|i: int| 0 <= i < rest.len() implies (#[trigger] rest[i]).0 <= rest[i].1
                <= doc.len() by {
                assert(rest[i] == spans[i + 1]);
            }
            if n > 1 {
                assert(rest[n - 2] == spans[n - 1]);
            }
            if n < spans.len() {
                assert(rest[n - 1] == spans[n]);
            }
            law_splice_touches_only_the_spans(doc, rest, value, spans[0].1, n - 1, at);
            lemma_shift_rest(spans, value.len() as int, n);
            let to = at - spans[0].1 + shift(rest, value.len() as int, n - 1);
            assert((head + value + tail)[head.len() + value.len() + to] == tail[to]);
        }
    }
}

/// Every replaced span holds the new value afterwards.
pub proof fn law_spans_hold_the_value(
    doc: Seq<u8>,
    spans: Seq<SpanModel>,
    value: Seq<u8>,
    cursor: int,
    n: int,
)
    requires
        spliced(doc, spans, value, cursor) is Some,
        0 <= cursor <= doc.len(),
        forall|i: int|
            0 <= i < spans.len() ==> (#[trigger] spans[i]).0 <= spans[i].1 <= doc.len(),
        0 <= n < spans.len(),
    ensures
        ({
            let updated = spliced(doc, spans, value, cursor)->0;
            let start = spans[n].0 - cursor + shift(spans, value.len() as int, n);
            &&& 0 <= start <= start + value.len() <= updated.len()
            &&& updated.subrange(start, start + value.len()) == value
        }),
    decreases spans.len(),
{
    let rest = spans.drop_first();
    let tail = spliced(doc, rest, value, spans[0].1)->0;
    let head = doc.subrange(cursor, spans[0].0);
    let updated = head + value + tail;
    if n == 0 {
        assert(updated.subrange(head.len() as int, (head.len() + value.len()) as int) =~= value);
    } else {
        assert forall|i: int| 0 <= i < rest.len() implies (#[trigger] rest[i]).0 <= rest[i].1
            <= doc.len() by {
            assert(rest[i] == spans[i + 1]);
        }
        assert(rest[n - 1] == spans[n]);
        law_spans_hold_the_value(doc, rest, value, spans[0].1, n - 1);
        lemma_shift_rest(spans, value.len() as int, n);
        let inner = rest[n - 1].0 - spans[0].1 + shift(rest, value.len() as int, n - 1);
        let start = head.len() + value.len() + inner;
        assert(updated.subrange(start, start + value.len()) =~= tail.subrange(
            inner,
            inner + value.len(),
        ));
    }
}

} // verus!
