//! Reading of the rating in attribute or element form.

use quick_xml::NsReader;
use vstd::prelude::*;
use vstd::slice::slice_subrange;

use crate::text::append_bytes;
use crate::xmp::document::{
    attributes_model, attributes_of, document_of, is_description, is_document, is_rating_attribute,
    is_rating_element, is_rdf_description, is_xmp_rating_attribute, is_xmp_rating_element,
    name_len, name_len_of, name_of, next_token, open_document, scope, scope_model,
    tag_attributes, text_of, token_model, tokens_left, unescape, AttributesModel, DocumentModel,
    ScopeModel, TokenModel, XmlAttribute, XmlBinding, XmlKind, XmlToken,
};

verus! {

// ---------------------------------------------------------------------------
// The rules
// ---------------------------------------------------------------------------

/// What has been read of a document.
#[verifier::ext_equal]
pub struct ReadModel {
    /// For each open element, whether it is an RDF description.
    pub open: Seq<bool>,
    /// Open rating elements: their depth and their text so far.
    pub captures: Seq<(int, Seq<u8>)>,
    /// Texts of the ratings that are complete, in document order.
    pub texts: Seq<Seq<u8>>,
}

/// What is wrong with the first malformed attribute, if there is one.
pub open spec fn first_error(attributes: AttributesModel) -> Option<Seq<char>>
    decreases attributes.len(),
{
    if attributes.len() == 0 {
        None
    } else {
        match (first_error(attributes.drop_last()), attributes.last()) {
            (None, Err(error)) => Some(error),
            (found, _) => found,
        }
    }
}

/// The text of a description's rating attribute, if it has one. Nothing comes of
/// malformed attributes, of two ratings, or of an unknown entity in the value.
pub open spec fn tag_rating(scope: ScopeModel, attributes: AttributesModel) -> Option<
    Option<Seq<u8>>,
>
    decreases attributes.len(),
{
    if attributes.len() == 0 {
        Some(None)
    } else {
        match (tag_rating(scope, attributes.drop_last()), attributes.last()) {
            (Some(found), Ok((key, value))) => if !is_rating_attribute(scope, key) {
                Some(found)
            } else if found is Some {
                None
            } else {
                match text_of(value) {
                    Some(text) => Some(Some(text)),
                    None => None,
                }
            },
            _ => None,
        }
    }
}

/// Whether the innermost open element is an RDF description.
pub open spec fn in_description(open: Seq<bool>) -> bool {
    open.len() > 0 && open.last()
}

/// The texts after a tag: those before it, and its rating attribute.
pub open spec fn texts_after(texts: Seq<Seq<u8>>, token: TokenModel) -> Option<Seq<Seq<u8>>> {
    let attributes = attributes_of(token.content, name_len_of(token.content));
    if is_description(token.scope, name_of(token.content)) {
        match tag_rating(token.scope, attributes) {
            Some(Some(text)) => Some(texts.push(text)),
            Some(None) => Some(texts),
            None => None,
        }
    } else if first_error(attributes) is None {
        Some(texts)
    } else {
        None
    }
}

/// Whether text here belongs to the innermost rating element.
pub open spec fn in_rating(model: ReadModel) -> bool {
    model.captures.len() > 0 && model.open.len() == model.captures.last().0 + 1
}

/// The state with text added to the innermost rating element.
pub open spec fn captured(model: ReadModel, text: Seq<u8>) -> ReadModel {
    let last = model.captures.last();
    ReadModel {
        captures: model.captures.drop_last().push((last.0, last.1 + text)),
        ..model
    }
}

/// The state after a token, if the document is not rejected.
///
/// A rating element is a direct child of a description. A self-closing one has
/// no value and captures nothing.
pub open spec fn read_token(model: ReadModel, token: TokenModel) -> Option<ReadModel> {
    let name = name_of(token.content);
    match token.kind {
        XmlKind::Start => match texts_after(model.texts, token) {
            Some(texts) => Some(
                ReadModel {
                    open: model.open.push(is_description(token.scope, name)),
                    captures: if in_description(model.open) && is_rating_element(
                        token.scope,
                        name,
                    ) {
                        model.captures.push((model.open.len() as int, seq![]))
                    } else {
                        model.captures
                    },
                    texts,
                },
            ),
            None => None,
        },
        XmlKind::Empty => match texts_after(model.texts, token) {
            Some(texts) => Some(ReadModel { texts, ..model }),
            None => None,
        },
        XmlKind::Text => if in_rating(model) {
            match text_of(token.content) {
                Some(text) => Some(captured(model, text)),
                None => None,
            }
        } else {
            Some(model)
        },
        XmlKind::CData => if in_rating(model) {
            Some(captured(model, token.content))
        } else {
            Some(model)
        },
        XmlKind::End => if model.open.len() == 0 {
            None
        } else if is_rating_element(token.scope, token.content) && model.captures.len() > 0
            && model.captures.last().0 == model.open.len() - 1 {
            Some(
                ReadModel {
                    open: model.open.drop_last(),
                    captures: model.captures.drop_last(),
                    texts: model.texts.push(model.captures.last().1),
                },
            )
        } else {
            Some(ReadModel { open: model.open.drop_last(), ..model })
        },
        _ => Some(model),
    }
}

/// The rating texts of a document from some token on. A document that ends
/// inside an element is rejected.
pub open spec fn read_from(tokens: DocumentModel, model: ReadModel) -> Option<Seq<Seq<u8>>>
    decreases tokens.len(),
{
    if tokens.len() == 0 {
        None
    } else {
        match tokens[0] {
            Err(_) => None,
            Ok(token) => if token.kind == XmlKind::Eof {
                if model.open.len() == 0 && model.captures.len() == 0 {
                    Some(model.texts)
                } else {
                    None
                }
            } else {
                match read_token(model, token) {
                    Some(next) => read_from(tokens.drop_first(), next),
                    None => None,
                }
            },
        }
    }
}

/// Before the first token.
pub open spec fn read_nothing() -> ReadModel {
    ReadModel { open: seq![], captures: seq![], texts: seq![] }
}

/// The rating texts of a document in document order, if it is not rejected.
pub open spec fn rating_texts_of(xml: Seq<char>) -> Option<Seq<Seq<u8>>> {
    read_from(document_of(xml), read_nothing())
}

// ---------------------------------------------------------------------------
// Reading
// ---------------------------------------------------------------------------

/// A rating element whose end has not been read.
struct RatingCapture {
    depth: usize,
    content: Vec<u8>,
}

struct ReadState {
    open: Vec<bool>,
    captures: Vec<RatingCapture>,
    texts: Vec<Vec<u8>>,
}

spec fn captures_model(captures: Seq<RatingCapture>) -> Seq<(int, Seq<u8>)> {
    captures.map_values(|capture: RatingCapture| (capture.depth as int, capture.content@))
}

/// Byte strings over sequences.
pub open spec fn texts_model(texts: Seq<Vec<u8>>) -> Seq<Seq<u8>> {
    texts.map_values(|text: Vec<u8>| text@)
}

impl View for ReadState {
    type V = ReadModel;

    closed spec fn view(&self) -> ReadModel {
        ReadModel {
            open: self.open@,
            captures: captures_model(self.captures@),
            texts: texts_model(self.texts@),
        }
    }
}

/// Checks that every attribute is well formed.
pub(crate) fn validate_attributes(attributes: &Vec<Result<XmlAttribute, String>>) -> (checked:
    Result<(), String>)
    ensures
        match checked {
            Ok(()) => first_error(attributes_model(attributes@)) is None,
            Err(error) => first_error(attributes_model(attributes@)) == Some(error@),
        },
{
    let ghost model = attributes_model(attributes@);
    let mut i: usize = 0;
    proof {
        assert(model.take(0) =~= seq![]);
    }
    while i < attributes.len()
        invariant
            i <= attributes@.len(),
            model == attributes_model(attributes@),
            first_error(model.take(i as int)) is None,
        decreases attributes@.len() - i,
    {
        proof {
            assert(model.take(i + 1).drop_last() =~= model.take(i as int));
            assert(model.take(i + 1).last() == model[i as int]);
        }
        match &attributes[i] {
            Ok(_) => {},
            Err(error) => {
                proof {
                    lemma_first_error(model, i + 1);
                }
                return Err(error.clone());
            },
        }
        i += 1;
    }
    assert(model.take(i as int) =~= model);
    Ok(())
}

proof fn lemma_first_error(attributes: AttributesModel, n: int)
    requires
        0 <= n <= attributes.len(),
        first_error(attributes.take(n)) is Some,
    ensures
        first_error(attributes) == first_error(attributes.take(n)),
    decreases attributes.len() - n,
{
    if n < attributes.len() {
        assert(attributes.take(n + 1).drop_last() =~= attributes.take(n));
        lemma_first_error(attributes, n + 1);
    } else {
        assert(attributes.take(n) =~= attributes);
    }
}

/// The text of a description's rating attribute.
fn parse_rating_attribute(
    bindings: &Vec<XmlBinding>,
    attributes: &Vec<Result<XmlAttribute, String>>,
) -> (rating: Option<Option<Vec<u8>>>)
    ensures
        match tag_rating(scope_model(bindings@), attributes_model(attributes@)) {
            Some(Some(text)) => rating matches Some(Some(found)) && found@ == text,
            Some(None) => rating matches Some(None),
            None => rating is None,
        },
{
    let ghost names = scope_model(bindings@);
    let ghost model = attributes_model(attributes@);
    let mut found: Option<Vec<u8>> = None;
    let mut i: usize = 0;
    proof {
        assert(model.take(0) =~= seq![]);
    }
    while i < attributes.len()
        invariant
            i <= attributes@.len(),
            names == scope_model(bindings@),
            model == attributes_model(attributes@),
            tag_rating(names, model.take(i as int)) == Some(
                crate::xmp::document::opt_bytes(found),
            ),
        decreases attributes@.len() - i,
    {
        proof {
            assert(model.take(i + 1).drop_last() =~= model.take(i as int));
            assert(model.take(i + 1).last() == model[i as int]);
        }
        match &attributes[i] {
            Ok(attribute) => {
                if is_xmp_rating_attribute(bindings, attribute.key.as_slice()) {
                    if found.is_some() {
                        proof {
                            lemma_rejected(names, model, i + 1);
                        }
                        return None;
                    }
                    match unescape(attribute.value.as_slice()) {
                        Some(text) => {
                            found = Some(text);
                        },
                        None => {
                            proof {
                                lemma_rejected(names, model, i + 1);
                            }
                            return None;
                        },
                    }
                }
            },
            Err(_) => {
                proof {
                    lemma_rejected(names, model, i + 1);
                }
                return None;
            },
        }
        i += 1;
    }
    assert(model.take(i as int) =~= model);
    Some(found)
}

proof fn lemma_rejected(names: ScopeModel, attributes: AttributesModel, n: int)
    requires
        0 <= n <= attributes.len(),
        tag_rating(names, attributes.take(n)) is None,
    ensures
        tag_rating(names, attributes) is None,
    decreases attributes.len() - n,
{
    if n < attributes.len() {
        assert(attributes.take(n + 1).drop_last() =~= attributes.take(n));
        lemma_rejected(names, attributes, n + 1);
    } else {
        assert(attributes.take(n) =~= attributes);
    }
}

/// Attributes of a tag.
pub(crate) fn attributes_in(content: &Vec<u8>) -> (attributes: Vec<Result<XmlAttribute, String>>)
    ensures
        attributes_model(attributes@) == attributes_of(content@, name_len_of(content@)),
{
    let len: usize = name_len(content.as_slice());
    tag_attributes(content.as_slice(), len)
}

/// Name of a tag.
pub(crate) fn tag_name(content: &Vec<u8>) -> (name: &[u8])
    ensures
        name@ == name_of(content@),
{
    let len: usize = name_len(content.as_slice());
    let name = slice_subrange(content.as_slice(), 0, len);
    assert(name@ =~= name_of(content@));
    name
}

impl ReadState {
    /// Reads the attributes of a tag.
    fn read_attributes(&mut self, bindings: &Vec<XmlBinding>, content: &Vec<u8>, description: bool)
        -> (accepted: bool)
        requires
            description == is_description(scope_model(bindings@), name_of(content@)),
        ensures
            final(self)@.open == old(self)@.open,
            final(self)@.captures == old(self)@.captures,
            final(self).open == old(self).open,
            final(self).captures == old(self).captures,
            ({
                let token = TokenModel {
                    kind: XmlKind::Start,
                    content: content@,
                    end: 0,
                    scope: scope_model(bindings@),
                };
                match texts_after(old(self)@.texts, token) {
                    Some(texts) => accepted && final(self)@.texts == texts,
                    None => !accepted,
                }
            }),
    {
        let attributes = attributes_in(content);
        if description {
            match parse_rating_attribute(bindings, &attributes) {
                Some(Some(text)) => {
                    self.texts.push(text);
                    assert(self@.texts =~= old(self)@.texts.push(text@));
                    true
                },
                Some(None) => true,
                None => false,
            }
        } else {
            validate_attributes(&attributes).is_ok()
        }
    }

    fn capturing(&self) -> (capturing: bool)
        ensures
            capturing == in_rating(self@),
    {
        if self.captures.len() == 0 {
            return false;
        }
        let capture = &self.captures[self.captures.len() - 1];
        let depth: usize = self.open.len();
        depth > 0 && depth - 1 == capture.depth
    }

    fn capture(&mut self, text: &[u8])
        requires
            in_rating(old(self)@),
        ensures
            final(self)@ == captured(old(self)@, text@),
    {
        match self.captures.pop() {
            Some(capture) => {
                let mut content = capture.content;
                append_bytes(&mut content, text);
                self.captures.push(RatingCapture { depth: capture.depth, content });
            },
            None => {},
        }
        assert(self@ =~= captured(old(self)@, text@));
    }

    /// Takes a token other than the end of the document.
    fn read(&mut self, token: &XmlToken, bindings: &Vec<XmlBinding>) -> (accepted: bool)
        ensures
            ({
                let model = TokenModel {
                    kind: token.kind,
                    content: token.content@,
                    end: token.end as int,
                    scope: scope_model(bindings@),
                };
                match read_token(old(self)@, model) {
                    Some(next) => accepted && final(self)@ == next,
                    None => !accepted,
                }
            }),
    {
        let ghost before = self@;
        match token.kind {
            XmlKind::Start => {
                let name = tag_name(&token.content);
                let description: bool = is_rdf_description(bindings, name);
                let depth: usize = self.open.len();
                let rating: bool = depth > 0 && self.open[depth - 1] && is_xmp_rating_element(
                    bindings,
                    name,
                );
                if !self.read_attributes(bindings, &token.content, description) {
                    return false;
                }
                if rating {
                    self.captures.push(RatingCapture { depth, content: Vec::new() });
                    assert(self@.captures =~= before.captures.push((depth as int, seq![])));
                }
                self.open.push(description);
                true
            },
            XmlKind::Empty => {
                let name = tag_name(&token.content);
                let description: bool = is_rdf_description(bindings, name);
                self.read_attributes(bindings, &token.content, description)
            },
            XmlKind::Text => {
                if self.capturing() {
                    match unescape(token.content.as_slice()) {
                        Some(text) => {
                            self.capture(text.as_slice());
                            true
                        },
                        None => false,
                    }
                } else {
                    true
                }
            },
            XmlKind::CData => {
                if self.capturing() {
                    self.capture(token.content.as_slice());
                }
                true
            },
            XmlKind::End => {
                let open: usize = self.open.len();
                if open == 0 {
                    return false;
                }
                let count: usize = self.captures.len();
                if is_xmp_rating_element(bindings, token.content.as_slice()) && count > 0
                    && self.captures[count - 1].depth == open - 1 {
                    match self.captures.pop() {
                        Some(capture) => {
                            self.texts.push(capture.content);
                        },
                        None => {},
                    }
                    assert(self@.captures =~= before.captures.drop_last());
                    assert(self@.texts =~= before.texts.push(before.captures.last().1));
                }
                self.open.pop();
                assert(self@.open =~= before.open.drop_last());
                true
            },
            _ => true,
        }
    }
}

/// Reads the texts of all ratings in a document: attributes of RDF descriptions
/// and elements directly inside them. Returns nothing for a document that is
/// rejected.
pub fn rating_texts(xml: &str) -> (texts: Option<Vec<Vec<u8>>>)
    ensures
        match rating_texts_of(xml@) {
            Some(model) => texts matches Some(found) && texts_model(found@) == model,
            None => texts is None,
        },
{
    let mut reader: NsReader<&[u8]> = open_document(xml);
    let mut state = ReadState { open: Vec::new(), captures: Vec::new(), texts: Vec::new() };
    assert(state@ =~= read_nothing());
    loop
        invariant
            is_document(tokens_left(reader)),
            rating_texts_of(xml@) == read_from(tokens_left(reader), state@),
        decreases tokens_left(reader).len(),
    {
        let ghost left = tokens_left(reader);
        let read = next_token(&mut reader);
        let ghost names = crate::xmp::document::scope_of(reader);
        assert(token_model(read, names) == left[0]);
        match read {
            Err(_) => {
                return None;
            },
            Ok(token) => {
                if token.kind == XmlKind::Eof {
                    assert(state@.open.len() == state.open@.len());
                    assert(state@.captures.len() == state.captures@.len());
                    return if state.open.len() == 0 && state.captures.len() == 0 {
                        Some(state.texts)
                    } else {
                        None
                    };
                }
                let bindings = scope(&reader);
                if !state.read(&token, &bindings) {
                    return None;
                }
                proof {
                    assert forall|i: int| 0 <= i < left.drop_first().len() implies (
                    crate::xmp::document::ends_document(#[trigger] left.drop_first()[i]) <==> i
                        == left.drop_first().len() - 1) by {
                        assert(left.drop_first()[i] == left[i + 1]);
                    }
                }
            },
        }
    }
}

} // verus!
