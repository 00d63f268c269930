//! Which ratings of a document are found.
use vstd::prelude::*;

use crate::text::bytes_of;
use crate::xmp::document::{
    attributes_of, document_of, is_description, is_rating_attribute, is_rating_element, is_space,
    name_len_of, name_of, names_namespace, text_of, AttributesModel, DocumentModel, ScopeModel,
    TokenModel, XmlKind,
};
use crate::xmp::read::{
    rating_texts, read_from, read_nothing, read_token, tag_rating, texts_after, texts_model,
    ReadModel,
};
use crate::xmp::rewrite::xmp_prefix;
use crate::xmp::splice::{skip_spaces, value_at};

verus! {

// ---------------------------------------------------------------------------
// Texts of ratings
// ---------------------------------------------------------------------------

/// The tags that are open after a token.
pub open spec fn opened_by(opened: Seq<TokenModel>, token: TokenModel) -> Seq<TokenModel> {
    if token.kind == XmlKind::Start {
        opened.push(token)
    } else if token.kind == XmlKind::End && opened.len() > 0 {
        opened.drop_last()
    } else {
        opened
    }
}

/// The tags that are open before a token of a document, where some were before its first
/// one.
pub open spec fn opened_before(
    tokens: DocumentModel,
    opened: Seq<TokenModel>,
    i: int,
) -> Seq<TokenModel>
    decreases i,
{
    if i <= 0 || tokens.len() == 0 {
        opened
    } else {
        match tokens[0] {
            Ok(token) => opened_before(tokens.drop_first(), opened_by(opened, token), i - 1),
            Err(_) => opened,
        }
    }
}

/// Whether a tag is an RDF description.
pub open spec fn describes(tag: TokenModel) -> bool {
    is_description(tag.scope, name_of(tag.content))
}

/// Whether a token stands before the end of its document.
pub open spec fn is_inner(token: Result<TokenModel, Seq<char>>) -> bool {
    token matches Ok(token) && token.kind != XmlKind::Eof
}

/// Whether the model of a reader knows which open tags are descriptions.
spec fn knows(model: ReadModel, opened: Seq<TokenModel>) -> bool {
    &&& model.open.len() == opened.len()
    &&& forall|k: int| 0 <= k < opened.len() ==> #[trigger] model.open[k] == describes(opened[k])
}

proof fn lemma_read_step(
    model: ReadModel,
    token: TokenModel,
    next: ReadModel,
    opened: Seq<TokenModel>,
)
    requires
        read_token(model, token) == Some(next),
        knows(model, opened),
    ensures
        knows(next, opened_by(opened, token)),
        next.texts.len() >= model.texts.len(),
        next.texts.take(model.texts.len() as int) == model.texts,
{
    assert(next.texts.take(model.texts.len() as int) =~= model.texts);
}

proof fn lemma_texts_kept(tokens: DocumentModel, model: ReadModel, opened: Seq<TokenModel>, k: int)
    requires
        read_from(tokens, model) is Some,
        knows(model, opened),
        0 <= k < model.texts.len(),
    ensures
        k < (read_from(tokens, model)->0).len(),
        (read_from(tokens, model)->0)[k] == model.texts[k],
    decreases tokens.len(),
{
    let token = tokens[0]->Ok_0;
    if token.kind != XmlKind::Eof {
        let next = read_token(model, token)->0;
        lemma_read_step(model, token, next, opened);
        assert(next.texts.take(model.texts.len() as int)[k] == next.texts[k]);
        lemma_texts_kept(tokens.drop_first(), next, opened_by(opened, token), k);
    }
}

/// Whether a rating element with a text stands at a position.
pub open spec fn is_rating_at(tokens: DocumentModel, i: int, text: Seq<u8>) -> bool {
    &&& tokens[i] matches Ok(start) && tokens[i + 1] matches Ok(inner) && tokens[i
        + 2] matches Ok(end) && {
        &&& start.kind == XmlKind::Start && is_rating_element(start.scope, name_of(start.content))
        &&& inner.kind == XmlKind::Text && text_of(inner.content) == Some(text)
        &&& end.kind == XmlKind::End && is_rating_element(end.scope, end.content)
    }
}

/// Whether a description with a rating attribute stands at a position.
pub open spec fn is_rated_at(tokens: DocumentModel, i: int, a: int, text: Seq<u8>) -> bool {
    &&& tokens[i] matches Ok(tag) && {
        let attributes = attributes_of(tag.content, name_len_of(tag.content));
        &&& tag.kind == XmlKind::Start || tag.kind == XmlKind::Empty
        &&& describes(tag)
        &&& 0 <= a < attributes.len()
        &&& attributes[a] matches Ok((key, value)) && is_rating_attribute(tag.scope, key)
            && text_of(value) == Some(text)
    }
}

proof fn lemma_element_here(
    tokens: DocumentModel,
    model: ReadModel,
    opened: Seq<TokenModel>,
    text: Seq<u8>,
)
    requires
        read_from(tokens, model) is Some,
        knows(model, opened),
        tokens.len() > 2,
        is_rating_at(tokens, 0, text),
        opened.len() > 0 && describes(opened.last()),
    ensures
        (read_from(tokens, model)->0).contains(text),
{
    let start = tokens[0]->Ok_0;
    let inner = tokens[1]->Ok_0;
    let end = tokens[2]->Ok_0;
    let first = tokens.drop_first();
    let second = first.drop_first();
    let third = second.drop_first();
    assert(first[0] == tokens[1]);
    assert(second[0] == tokens[2]);
    assert(model.open[opened.len() - 1] == describes(opened[opened.len() - 1]));
    let m1 = read_token(model, start)->0;
    lemma_read_step(model, start, m1, opened);
    let o1 = opened_by(opened, start);
    assert(m1.captures == model.captures.push((model.open.len() as int, seq![])));
    assert(read_from(tokens, model) == read_from(first, m1));
    let m2 = read_token(m1, inner)->0;
    lemma_read_step(m1, inner, m2, o1);
    assert(m2.captures.last() == (model.open.len() as int, Seq::<u8>::empty() + text));
    assert(Seq::<u8>::empty() + text =~= text);
    assert(read_from(first, m1) == read_from(second, m2));
    let m3 = read_token(m2, end)->0;
    lemma_read_step(m2, end, m3, o1);
    assert(m3.texts == m2.texts.push(text));
    assert(read_from(second, m2) == read_from(third, m3));
    let k = m2.texts.len() as int;
    assert(m3.texts[k] == text);
    lemma_texts_kept(third, m3, opened_by(o1, end), k);
    assert((read_from(tokens, model)->0)[k] == text);
}

proof fn lemma_tag_rating(scope: ScopeModel, attributes: AttributesModel, a: int, text: Seq<u8>)
    requires
        tag_rating(scope, attributes) is Some,
        0 <= a < attributes.len(),
        attributes[a] matches Ok((key, value)) && is_rating_attribute(scope, key) && text_of(value)
            == Some(text),
    ensures
        tag_rating(scope, attributes) == Some(Some(text)),
    decreases attributes.len(),
{
    if a < attributes.len() - 1 {
        let rest = attributes.drop_last();
        assert(rest[a] == attributes[a]);
        lemma_tag_rating(scope, rest, a, text);
    }
}

proof fn lemma_attribute_here(
    tokens: DocumentModel,
    model: ReadModel,
    opened: Seq<TokenModel>,
    a: int,
    text: Seq<u8>,
)
    requires
        read_from(tokens, model) is Some,
        knows(model, opened),
        tokens.len() > 0,
        is_rated_at(tokens, 0, a, text),
    ensures
        (read_from(tokens, model)->0).contains(text),
{
    let tag = tokens[0]->Ok_0;
    let next = read_token(model, tag)->0;
    lemma_read_step(model, tag, next, opened);
    assert(texts_after(model.texts, tag) is Some);
    lemma_tag_rating(tag.scope, attributes_of(tag.content, name_len_of(tag.content)), a, text);
    assert(next.texts == model.texts.push(text));
    let k = model.texts.len() as int;
    assert(next.texts[k] == text);
    lemma_texts_kept(tokens.drop_first(), next, opened_by(opened, tag), k);
    assert((read_from(tokens, model)->0)[k] == text);
}

proof fn lemma_found(
    tokens: DocumentModel,
    model: ReadModel,
    opened: Seq<TokenModel>,
    i: int,
    a: int,
    text: Seq<u8>,
)
    requires
        read_from(tokens, model) is Some,
        knows(model, opened),
        0 <= i < tokens.len(),
        forall|k: int| 0 <= k <= i ==> is_inner(#[trigger] tokens[k]),
        is_rated_at(tokens, i, a, text) || (i + 2 < tokens.len() && is_rating_at(tokens, i, text)
            && opened_before(tokens, opened, i).len() > 0 && describes(
            opened_before(tokens, opened, i).last(),
        )),
    ensures
        (read_from(tokens, model)->0).contains(text),
    decreases i,
{
    if i == 0 {
        if is_rated_at(tokens, 0, a, text) {
            lemma_attribute_here(tokens, model, opened, a, text);
        } else {
            lemma_element_here(tokens, model, opened, text);
        }
    } else {
        assert(is_inner(tokens[0]));
        let token = tokens[0]->Ok_0;
        let next = read_token(model, token)->0;
        let rest = tokens.drop_first();
        lemma_read_step(model, token, next, opened);
        assert forall|k: int| 0 <= k <= i - 1 implies is_inner(#[trigger] rest[k]) by {
            assert(rest[k] == tokens[k + 1]);
        }
        assert(rest[i - 1] == tokens[i]);
        if i + 2 < tokens.len() {
            assert(rest[i] == tokens[i + 1]);
            assert(rest[i + 1] == tokens[i + 2]);
        }
        assert(is_rated_at(tokens, i, a, text) ==> is_rated_at(rest, i - 1, a, text));
        assert(i + 2 < tokens.len() && is_rating_at(tokens, i, text) ==> is_rating_at(
            rest,
            i - 1,
            text,
        ));
        lemma_found(rest, next, opened_by(opened, token), i - 1, a, text);
    }
}

/// A rating element directly inside of a description is found, however deep it stands.
pub proof fn law_rating_elements_are_found_at_any_depth(
    xml: &str,
    texts: Vec<Vec<u8>>,
    i: int,
    text: Seq<u8>,
)
    requires
        call_ensures(rating_texts, (xml,), Some(texts)),
        0 <= i,
        i + 2 < document_of(xml@).len(),
        forall|k: int| 0 <= k <= i ==> is_inner(#[trigger] document_of(xml@)[k]),
        is_rating_at(document_of(xml@), i, text),
        opened_before(document_of(xml@), seq![], i).len() > 0,
        describes(opened_before(document_of(xml@), seq![], i).last()),
    ensures
        exists|n: int| 0 <= n < texts@.len() && (#[trigger] texts@[n])@ == text,
{
    lemma_found(document_of(xml@), read_nothing(), seq![], i, 0, text);
    lemma_listed(texts, text);
}

/// A rating attribute of a description is found, wherever it stands among the others.
pub proof fn law_rating_attributes_are_found_anywhere(
    xml: &str,
    texts: Vec<Vec<u8>>,
    i: int,
    a: int,
    text: Seq<u8>,
)
    requires
        call_ensures(rating_texts, (xml,), Some(texts)),
        0 <= i < document_of(xml@).len(),
        forall|k: int| 0 <= k <= i ==> is_inner(#[trigger] document_of(xml@)[k]),
        is_rated_at(document_of(xml@), i, a, text),
    ensures
        exists|n: int| 0 <= n < texts@.len() && (#[trigger] texts@[n])@ == text,
{
    lemma_found(document_of(xml@), read_nothing(), seq![], i, a, text);
    lemma_listed(texts, text);
}

proof fn lemma_listed(texts: Vec<Vec<u8>>, text: Seq<u8>)
    requires
        texts_model(texts@).contains(text),
    ensures
        exists|n: int| 0 <= n < texts@.len() && (#[trigger] texts@[n])@ == text,
{
    let n = choose|n: int| 0 <= n < texts_model(texts@).len() && texts_model(texts@)[n] == text;
    assert(texts@[n]@ == text);
}

// ---------------------------------------------------------------------------
// Prefixes and values
// ---------------------------------------------------------------------------

/// A prefix in scope that stands for the XMP namespace is used, the first one of them.
/// There is one exactly where some prefix does.
pub proof fn law_prefixes_in_scope_are_used(scope: ScopeModel, i: int)
    requires
        0 <= i <= scope.len(),
        forall|j: int|
            0 <= j < i ==> !((#[trigger] scope[j]).0 is Some && names_namespace(
                scope[j].1,
                bytes_of("http://ns.adobe.com/xap/1.0/"),
            )),
        i < scope.len() ==> scope[i].0 is Some && names_namespace(
            scope[i].1,
            bytes_of("http://ns.adobe.com/xap/1.0/"),
        ),
    ensures
        i < scope.len() ==> xmp_prefix(scope) == scope[i].0,
        i == scope.len() ==> xmp_prefix(scope) is None,
    decreases i,
{
    if i > 0 {
        let rest = scope.drop_first();
        assert(!(scope[0].0 is Some && names_namespace(
            scope[0].1,
            bytes_of("http://ns.adobe.com/xap/1.0/"),
        )));
        assert forall|j: int| 0 <= j < i - 1 implies !((#[trigger] rest[j]).0 is Some
            && names_namespace(rest[j].1, bytes_of("http://ns.adobe.com/xap/1.0/"))) by {
            assert(rest[j] == scope[j + 1]);
        }
        law_prefixes_in_scope_are_used(rest, i - 1);
    }
}

/// Whether bytes are blanks, tabulators and line ends alone.
pub open spec fn is_blank(bytes: Seq<u8>, from: int, to: int) -> bool {
    forall|i: int|
        from <= i < to ==> #[trigger] bytes[i] == 0x20 || bytes[i] == 0x09 || bytes[i] == 0x0A
            || bytes[i] == 0x0D
}

proof fn lemma_skips(bytes: Seq<u8>, at: int, to: int)
    requires
        0 <= at <= to < bytes.len(),
        is_blank(bytes, at, to),
        !is_space(bytes[to]),
    ensures
        skip_spaces(bytes, at) == to,
    decreases to - at,
{
    if at < to {
        assert(bytes[at] == 0x20 || bytes[at] == 0x09 || bytes[at] == 0x0A || bytes[at] == 0x0D);
        lemma_skips(bytes, at + 1, to);
    }
}

/// The value of an attribute is found behind its name, an equals sign and a quote, with
/// any number of blanks before each of them, up to the same quote.
pub proof fn law_values_are_found_between_blanks(
    content: Seq<u8>,
    at: int,
    key: Seq<u8>,
    value: Seq<u8>,
    name: int,
    equals: int,
    quote: int,
)
    requires
        0 <= at <= name,
        key.len() > 0,
        !is_blank(key, 0, 1),
        name + key.len() <= equals < quote,
        quote + 1 + value.len() < content.len(),
        is_blank(content, at, name),
        content.subrange(name, name + key.len()) == key,
        is_blank(content, name + key.len(), equals),
        content[equals] == 0x3D,
        is_blank(content, equals + 1, quote),
        content[quote] == 0x22 || content[quote] == 0x27,
        content.subrange(quote + 1, quote + 1 + value.len()) == value,
        content[quote + 1 + value.len()] == content[quote],
    ensures
        value_at(content, at, key, value) == Some(quote + 1),
{
    assert(content.subrange(name, name + key.len())[0] == content[name]);
    lemma_skips(content, at, name);
    lemma_skips(content, name + key.len(), equals);
    lemma_skips(content, equals + 1, quote);
}

} // verus!
