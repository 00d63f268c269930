//! What a reader finds in an updated document.
//!
//! The laws here relate the tokens that an update writes to the ratings that are
//! read from them. They take as given that an XML reader sees the tokens that
//! were written.

use vstd::prelude::*;

use crate::text::{
    bytes_of, decimal, digits_value, law_decimal_digits_read_as_the_number, lemma_ascii_bytes,
};
use crate::xmp::document::{
    attributes_of, bound_to, document_of, is_description, is_plain_text, is_rating_attribute,
    is_rating_element, is_space, lemma_name_len, local_of, name_len_of, name_of, names_namespace,
    position_of, prefix_of, rdf_namespace, text_of, xmp_namespace, AttributesModel, DocumentModel, ScopeModel,
    TokenModel, XmlKind,
};
use crate::xmp::read::{
    captured, first_error, in_description, in_rating, rating_texts_of, read_from, read_nothing, read_token,
    tag_rating, texts_after, ReadModel,
};
use crate::xmp::rewrite::{
    candidate, finished, fresh_prefix, in_rating_element, injected, is_fresh, is_taken,
    lemma_some_candidate_is_free, requoted, rewrite_from, rewrite_nothing, rewrite_token,
    rewrite_update, rewritten_tag, tag_content, target_of, with_attribute, written, xmp_prefix,
    PieceModel, RewriteModel, TargetModel,
};
use crate::xmp::splice::{
    attribute_update, rating_bytes, scan_from, scan_nothing, scan_token, tag_span, SpliceModel,
};
use crate::xmp::{new_sidecar, rated_sidecar, updated_bytes, XmpError};

verus! {

// ---------------------------------------------------------------------------
// Attributes
// ---------------------------------------------------------------------------

/// An attribute of a description after an update: a rating holds the new one,
/// and every other value is kept, in double quotes.
pub open spec fn rated_attribute(
    scope: ScopeModel,
    attribute: Result<(Seq<u8>, Seq<u8>), Seq<char>>,
    rating: u8,
) -> Result<(Seq<u8>, Seq<u8>), Seq<char>> {
    match attribute {
        Ok((key, value)) => Ok(
            (
                key,
                if is_rating_attribute(scope, key) {
                    rating_bytes(rating)
                } else {
                    requoted(value)
                },
            ),
        ),
        Err(error) => Err(error),
    }
}

/// The attributes of a description after an update.
pub open spec fn rated_attributes(
    scope: ScopeModel,
    attributes: AttributesModel,
    rating: u8,
) -> AttributesModel {
    attributes.map_values(
        |attribute: Result<(Seq<u8>, Seq<u8>), Seq<char>>|
            rated_attribute(scope, attribute, rating),
    )
}

proof fn lemma_digits_are_ascii(value: nat)
    ensures
        decimal(value).len() > 0,
        forall|i: int|
            0 <= i < decimal(value).len() ==> 48 <= (#[trigger] decimal(value)[i]) as u32 <= 57,
    decreases value,
{
    if value >= 10 {
        lemma_digits_are_ascii(value / 10);
    }
}

/// The digits of a rating stand for themselves.
proof fn lemma_digits_are_plain(rating: u8)
    ensures
        text_of(rating_bytes(rating)) == Some(rating_bytes(rating)),
{
    let digits = decimal(rating as nat);
    lemma_digits_are_ascii(rating as nat);
    assert forall|i: int| 0 <= i < digits.len() implies (#[trigger] digits[i]) as u32 <= 0x7F by {}
    lemma_ascii_bytes(digits);
    assert(is_plain_text(rating_bytes(rating))) by {
        assert forall|i: int| 0 <= i < rating_bytes(rating).len() implies #[trigger] rating_bytes(
            rating,
        )[i] < 0x80 && rating_bytes(rating)[i] != 0x26 by {
            assert(digits[i] as u32 <= 57);
        }
    }
}

proof fn lemma_rated_tag(
    scope: ScopeModel,
    content: Seq<u8>,
    attributes: AttributesModel,
    rating: u8,
)
    requires
        rewritten_tag(scope, content, attributes, rating) is Ok,
    ensures
        ({
            let found = rewritten_tag(scope, content, attributes, rating)->Ok_0.1;
            tag_rating(scope, rated_attributes(scope, attributes, rating)) == Some(
                if found {
                    Some(rating_bytes(rating))
                } else {
                    None::<Seq<u8>>
                },
            )
        }),
    decreases attributes.len(),
{
    lemma_digits_are_plain(rating);
    let rated = rated_attributes(scope, attributes, rating);
    if attributes.len() > 0 {
        lemma_rated_tag(scope, content, attributes.drop_last(), rating);
        assert(rated.drop_last() =~= rated_attributes(scope, attributes.drop_last(), rating));
        assert(rated.last() == rated_attribute(scope, attributes.last(), rating));
    }
}

proof fn lemma_name_of_extended(name: Seq<u8>, rest: Seq<u8>)
    requires
        name_len_of(name) == name.len(),
        rest.len() > 0 ==> is_space(rest[0]),
    ensures
        name_len_of(name + rest) == name.len(),
        name_of(name + rest) == name,
    decreases name.len(),
{
    if name.len() == 0 {
        assert(name + rest =~= rest);
        assert(name_of(name + rest) =~= name);
    } else {
        lemma_name_len(name.drop_first());
        assert((name + rest).drop_first() =~= name.drop_first() + rest);
        assert((name + rest)[0] == name[0]);
        lemma_name_of_extended(name.drop_first(), rest);
        assert((name + rest).take(name.len() as int) =~= name);
    }
}

proof fn lemma_name_is_a_name(content: Seq<u8>)
    ensures
        name_len_of(name_of(content)) == name_of(content).len(),
        name_of(content).len() == name_len_of(content),
    decreases content.len(),
{
    lemma_name_len(content);
    if content.len() > 0 && !is_space(content[0]) {
        lemma_name_is_a_name(content.drop_first());
        let name = name_of(content);
        assert(name.drop_first() =~= name_of(content.drop_first()));
        assert(name[0] == content[0]);
    } else {
        assert(name_of(content) =~= seq![]);
    }
}

/// The content of a rewritten tag starts with its name, and a space follows
/// where there is more.
proof fn lemma_rewritten_name(
    scope: ScopeModel,
    content: Seq<u8>,
    attributes: AttributesModel,
    rating: u8,
)
    requires
        rewritten_tag(scope, content, attributes, rating) is Ok,
    ensures
        ({
            let tag = rewritten_tag(scope, content, attributes, rating)->Ok_0.0;
            let rest = tag.skip(name_of(content).len() as int);
            &&& name_of(content).len() <= tag.len()
            &&& tag == name_of(content) + rest
            &&& rest.len() > 0 ==> rest[0] == 0x20
        }),
    decreases attributes.len(),
{
    let name = name_of(content);
    if attributes.len() == 0 {
        assert(name =~= name + name.skip(name.len() as int));
    } else {
        lemma_rewritten_name(scope, content, attributes.drop_last(), rating);
        let before = rewritten_tag(scope, content, attributes.drop_last(), rating)->Ok_0.0;
        let tag = rewritten_tag(scope, content, attributes, rating)->Ok_0.0;
        let key = attributes.last()->Ok_0.0;
        let value = if is_rating_attribute(scope, key) {
            rating_bytes(rating)
        } else {
            requoted(attributes.last()->Ok_0.1)
        };
        assert(tag == with_attribute(before, key, value));
        lemma_space_is_a_byte();
        let rest = tag.skip(name.len() as int);
        assert(tag =~= name + rest);
        if before.len() == name.len() {
            assert(rest[0] == bytes_of(" ")[0]);
        } else {
            assert(rest[0] == before.skip(name.len() as int)[0]);
        }
    }
}

proof fn lemma_space_is_a_byte()
    ensures
        bytes_of(" ") == seq![0x20u8],
{
    reveal_strlit(" ");
    lemma_ascii_bytes(" "@);
    assert(bytes_of(" ") =~= seq![0x20u8]);
}

/// A rewritten tag keeps its name.
pub(crate) proof fn lemma_rewritten_tag_keeps_its_name(
    scope: ScopeModel,
    content: Seq<u8>,
    attributes: AttributesModel,
    rating: u8,
)
    requires
        rewritten_tag(scope, content, attributes, rating) is Ok,
    ensures
        name_of(rewritten_tag(scope, content, attributes, rating)->Ok_0.0) == name_of(content),
{
    lemma_rewritten_name(scope, content, attributes, rating);
    lemma_name_is_a_name(content);
    let tag = rewritten_tag(scope, content, attributes, rating)->Ok_0.0;
    lemma_name_of_extended(name_of(content), tag.skip(name_of(content).len() as int));
}

// ---------------------------------------------------------------------------
// Tokens
// ---------------------------------------------------------------------------

/// A written token as a reader sees it, among the namespaces in scope there.
pub open spec fn seen(piece: PieceModel, scope: ScopeModel) -> TokenModel {
    TokenModel { kind: piece.0, content: piece.1, end: 0, scope }
}

/// What a reader sees of the tokens that take the place of one token.
pub open spec fn seen_after(model: RewriteModel, token: TokenModel, rating: u8) -> Seq<TokenModel> {
    match rewrite_token(model, token, rating) {
        Ok(next) => next.pieces.skip(model.pieces.len() as int).map_values(
            |piece: PieceModel| seen(piece, token.scope),
        ),
        Err(_) => seq![],
    }
}

/// What a reader sees of the tokens that a rewrite writes from some token on.
pub open spec fn seen_from(tokens: DocumentModel, model: RewriteModel, rating: u8) -> Seq<
    TokenModel,
>
    decreases tokens.len(),
{
    if tokens.len() == 0 {
        seq![]
    } else {
        match tokens[0] {
            Err(_) => seq![],
            Ok(token) => if token.kind == XmlKind::Eof {
                seq![]
            } else {
                match rewrite_token(model, token, rating) {
                    Ok(next) => seen_after(model, token, rating) + seen_from(
                        tokens.drop_first(),
                        next,
                        rating,
                    ),
                    Err(_) => seq![],
                }
            },
        }
    }
}

/// The state of a rewrite at the end of the document, if it gets there.
pub open spec fn rewritten_end(tokens: DocumentModel, model: RewriteModel, rating: u8) -> Option<
    RewriteModel,
>
    decreases tokens.len(),
{
    if tokens.len() == 0 {
        None
    } else {
        match tokens[0] {
            Err(_) => None,
            Ok(token) => if token.kind == XmlKind::Eof {
                Some(model)
            } else {
                match rewrite_token(model, token, rating) {
                    Ok(next) => rewritten_end(tokens.drop_first(), next, rating),
                    Err(_) => None,
                }
            },
        }
    }
}

/// The state of a reader after some tokens.
pub open spec fn read_all(tokens: Seq<TokenModel>, model: ReadModel) -> Option<ReadModel>
    decreases tokens.len(),
{
    if tokens.len() == 0 {
        Some(model)
    } else {
        match read_token(model, tokens[0]) {
            Some(next) => read_all(tokens.drop_first(), next),
            None => None,
        }
    }
}

proof fn lemma_read_all_concat(a: Seq<TokenModel>, b: Seq<TokenModel>, model: ReadModel)
    ensures
        read_all(a + b, model) == match read_all(a, model) {
            Some(next) => read_all(b, next),
            None => None,
        },
    decreases a.len(),
{
    if a.len() == 0 {
        assert(a + b =~= b);
    } else {
        assert((a + b)[0] == a[0]);
        assert((a + b).drop_first() =~= a.drop_first() + b);
        match read_token(model, a[0]) {
            Some(next) => lemma_read_all_concat(a.drop_first(), b, next),
            None => {},
        }
    }
}

/// Whether every closing tag names the element opened last, among the namespaces
/// of that element.
pub open spec fn tags_match(tokens: DocumentModel, open: Seq<(Seq<u8>, ScopeModel)>) -> bool
    decreases tokens.len(),
{
    if tokens.len() == 0 {
        true
    } else {
        match tokens[0] {
            Err(_) => true,
            Ok(token) => match token.kind {
                XmlKind::Start => tags_match(
                    tokens.drop_first(),
                    open.push((name_of(token.content), token.scope)),
                ),
                XmlKind::End => open.len() > 0 && open.last() == (token.content, token.scope)
                    && tags_match(tokens.drop_first(), open.drop_last()),
                _ => tags_match(tokens.drop_first(), open),
            },
        }
    }
}

/// Whether the rewritten tag of a description has the attributes that were
/// written into it.
pub open spec fn tag_reads_back(token: TokenModel, rating: u8) -> bool {
    let attributes = attributes_of(token.content, name_len_of(token.content));
    is_description(token.scope, name_of(token.content)) ==> match rewritten_tag(
        token.scope,
        token.content,
        attributes,
        rating,
    ) {
        Ok((tag, _)) => attributes_of(tag, name_len_of(tag)) == rated_attributes(
            token.scope,
            attributes,
            rating,
        ),
        Err(_) => true,
    }
}

/// Whether every rewritten tag has the attributes that were written into it.
pub open spec fn tags_read_back(tokens: DocumentModel, rating: u8) -> bool {
    forall|i: int|
        0 <= i < tokens.len() ==> match #[trigger] tokens[i] {
            Ok(token) => (token.kind == XmlKind::Start || token.kind == XmlKind::Empty)
                ==> tag_reads_back(token, rating),
            Err(_) => true,
        }
}

// ---------------------------------------------------------------------------
// Rewriting and reading side by side
// ---------------------------------------------------------------------------

/// Whether a reader of what was written so far is where the rewrite is.
spec fn side_by_side(
    model: RewriteModel,
    reader: ReadModel,
    open: Seq<(Seq<u8>, ScopeModel)>,
    rating: u8,
) -> bool {
    &&& reader.open == model.open
    &&& open.len() == model.open.len()
    &&& reader.captures.len() == model.ratings.len()
    &&& forall|j: int|
        0 <= j < model.ratings.len() ==> {
            let depth = (#[trigger] model.ratings[j]).0;
            &&& reader.captures[j] == (depth, Seq::<u8>::empty())
            &&& 0 <= depth < open.len()
            &&& is_rating_element(open[depth].1, open[depth].0)
        }
    &&& forall|i: int, j: int|
        0 <= i < j < model.ratings.len() ==> (#[trigger] model.ratings[i]).0 < (
        #[trigger] model.ratings[j]).0
    &&& forall|i: int|
        0 <= i < reader.texts.len() ==> #[trigger] reader.texts[i] == rating_bytes(rating)
    &&& model.wrote ==> reader.texts.len() > 0 || model.ratings.len() > 0
    &&& !model.wrote ==> reader.texts.len() == 0 && model.ratings.len() == 0
}

/// Reading a written tag: it is accepted, and its rating attribute is the new
/// rating.
proof fn lemma_tag_is_read(token: TokenModel, rating: u8, texts: Seq<Seq<u8>>)
    requires
        tag_reads_back(token, rating),
        tag_content(token, rating) is Ok,
    ensures
        ({
            let (content, found) = tag_content(token, rating)->Ok_0;
            &&& name_of(content) == name_of(token.content)
            &&& forall|kind: XmlKind| #[trigger]
                texts_after(texts, seen((kind, content), token.scope)) == Some(
                    if found {
                        texts.push(rating_bytes(rating))
                    } else {
                        texts
                    },
                )
        }),
{
    let attributes = attributes_of(token.content, name_len_of(token.content));
    if is_description(token.scope, name_of(token.content)) {
        lemma_rewritten_tag_keeps_its_name(token.scope, token.content, attributes, rating);
        lemma_rated_tag(token.scope, token.content, attributes, rating);
    }
}

proof fn lemma_tag_step(
    model: RewriteModel,
    reader: ReadModel,
    open: Seq<(Seq<u8>, ScopeModel)>,
    token: TokenModel,
    rating: u8,
) -> (next: ReadModel)
    requires
        token.kind == XmlKind::Start || token.kind == XmlKind::Empty,
        side_by_side(model, reader, open, rating),
        tag_reads_back(token, rating),
        rewrite_token(model, token, rating) is Ok,
    ensures
        read_all(seen_after(model, token, rating), reader) == Some(next),
        side_by_side(
            rewrite_token(model, token, rating)->Ok_0,
            next,
            if token.kind == XmlKind::Start {
                open.push((name_of(token.content), token.scope))
            } else {
                open
            },
            rating,
        ),
{
    lemma_digits_are_plain(rating);
    let (content, found) = tag_content(token, rating)->Ok_0;
    let after = rewrite_token(model, token, rating)->Ok_0;
    let name = name_of(token.content);
    let element = in_description(model.open) && is_rating_element(token.scope, name);
    lemma_tag_is_read(token, rating, reader.texts);
    let texts = if found {
        reader.texts.push(rating_bytes(rating))
    } else {
        reader.texts
    };
    let shown = seen_after(model, token, rating);
    if token.kind == XmlKind::Empty && element {
        let first = seen((XmlKind::Start, content), token.scope);
        let second = seen((XmlKind::Text, rating_bytes(rating)), token.scope);
        let third = seen((XmlKind::End, name_of(content)), token.scope);
        assert(shown =~= seq![first, second, third]);
        let opened = read_token(reader, first)->Some_0;
        let filled = read_token(opened, second)->Some_0;
        let next = read_token(filled, third)->Some_0;
        assert(read_token(reader, first) == Some(opened));
        assert(opened.captures == reader.captures.push((reader.open.len() as int, seq![])));
        assert(in_rating(opened));
        assert(filled == captured(opened, rating_bytes(rating)));
        assert(filled.captures.last().1 =~= rating_bytes(rating));
        assert(next.open =~= reader.open);
        assert(next.captures =~= reader.captures);
        assert(next.texts =~= texts.push(rating_bytes(rating)));
        assert(shown.drop_first() =~= seq![second, third]);
        assert(shown.drop_first().drop_first() =~= seq![third]);
        assert(shown.drop_first().drop_first().drop_first() =~= seq![]);
        reveal_with_fuel(read_all, 4);
        next
    } else {
        let only = seen((token.kind, content), token.scope);
        assert(shown =~= seq![only]);
        let next = read_token(reader, only)->Some_0;
        assert(read_token(reader, only) == Some(next));
        assert(shown.drop_first() =~= seq![]);
        reveal_with_fuel(read_all, 2);
        next
    }
}

proof fn lemma_end_step(
    model: RewriteModel,
    reader: ReadModel,
    open: Seq<(Seq<u8>, ScopeModel)>,
    token: TokenModel,
    rating: u8,
) -> (next: ReadModel)
    requires
        token.kind == XmlKind::End,
        open.len() > 0,
        open.last() == (token.content, token.scope),
        side_by_side(model, reader, open, rating),
        rewrite_token(model, token, rating) is Ok,
    ensures
        read_all(seen_after(model, token, rating), reader) == Some(next),
        side_by_side(
            rewrite_token(model, token, rating)->Ok_0,
            next,
            open.drop_last(),
            rating,
        ),
{
    lemma_digits_are_plain(rating);
    let shown = seen_after(model, token, rating);
    let last = seen((XmlKind::End, token.content), token.scope);
    if model.ratings.len() > 0 && model.ratings.last().0 == model.open.len() - 1 {
        let innermost = model.ratings[model.ratings.len() - 1];
        assert(is_rating_element(token.scope, token.content));
        let kind = if innermost.1 {
            XmlKind::CData
        } else {
            XmlKind::Text
        };
        let first = seen((kind, rating_bytes(rating)), token.scope);
        assert(shown =~= seq![first, last]);
        let filled = read_token(reader, first)->Some_0;
        assert(reader.captures[model.ratings.len() - 1] == (innermost.0, Seq::<u8>::empty()));
        assert(in_rating(reader));
        assert(filled == captured(reader, rating_bytes(rating)));
        assert(filled.captures.last().1 =~= rating_bytes(rating));
        let next = read_token(filled, last)->Some_0;
        assert(read_token(filled, last) == Some(next));
        assert(next.captures =~= reader.captures.drop_last());
        assert(shown.drop_first() =~= seq![last]);
        assert(shown.drop_first().drop_first() =~= seq![]);
        reveal_with_fuel(read_all, 3);
        next
    } else {
        assert(shown =~= seq![last]);
        let next = read_token(reader, last)->Some_0;
        if model.ratings.len() > 0 {
            assert(reader.captures[model.ratings.len() - 1].0 == model.ratings.last().0);
        }
        assert(read_token(reader, last) == Some(next));
        assert(shown.drop_first() =~= seq![]);
        reveal_with_fuel(read_all, 2);
        next
    }
}

proof fn lemma_other_step(
    model: RewriteModel,
    reader: ReadModel,
    open: Seq<(Seq<u8>, ScopeModel)>,
    token: TokenModel,
    rating: u8,
)
    requires
        token.kind != XmlKind::Start,
        token.kind != XmlKind::Empty,
        token.kind != XmlKind::End,
        token.kind != XmlKind::Eof,
        side_by_side(model, reader, open, rating),
    ensures
        rewrite_token(model, token, rating) is Ok,
        read_all(seen_after(model, token, rating), reader) == Some(reader),
        side_by_side(rewrite_token(model, token, rating)->Ok_0, reader, open, rating),
{
    let shown = seen_after(model, token, rating);
    if model.ratings.len() > 0 {
        assert(reader.captures[model.ratings.len() - 1].0 == model.ratings.last().0);
    }
    assert(in_rating(reader) == in_rating_element(model));
    if in_rating_element(model) && (token.kind == XmlKind::Text || token.kind == XmlKind::CData) {
        assert(shown =~= seq![]);
        let after = rewrite_token(model, token, rating)->Ok_0;
        assert forall|j: int| 0 <= j < after.ratings.len() implies (#[trigger] after.ratings[j]).0
            == model.ratings[j].0 by {}
    } else {
        assert(shown =~= seq![seen((token.kind, token.content), token.scope)]);
        assert(shown.drop_first() =~= seq![]);
        reveal_with_fuel(read_all, 2);
    }
}

/// A reader of everything that is written keeps beside the rewrite to its end.
proof fn lemma_keeps_beside(
    tokens: DocumentModel,
    model: RewriteModel,
    reader: ReadModel,
    open: Seq<(Seq<u8>, ScopeModel)>,
    rating: u8,
) -> (end: (ReadModel, Seq<(Seq<u8>, ScopeModel)>))
    requires
        rewritten_end(tokens, model, rating) is Some,
        side_by_side(model, reader, open, rating),
        tags_match(tokens, open),
        tags_read_back(tokens, rating),
    ensures
        read_all(seen_from(tokens, model, rating), reader) == Some(end.0),
        side_by_side(rewritten_end(tokens, model, rating)->Some_0, end.0, end.1, rating),
    decreases tokens.len(),
{
    let token = tokens[0]->Ok_0;
    if token.kind == XmlKind::Eof {
        (reader, open)
    } else {
        let after = rewrite_token(model, token, rating)->Ok_0;
        let rest = tokens.drop_first();
        assert(tags_read_back(rest, rating)) by {
            assert forall|i: int| 0 <= i < rest.len() implies match #[trigger] rest[i] {
                Ok(token) => (token.kind == XmlKind::Start || token.kind == XmlKind::Empty)
                    ==> tag_reads_back(token, rating),
                Err(_) => true,
            } by {
                assert(rest[i] == tokens[i + 1]);
            }
        }
        let (next, opened) = if token.kind == XmlKind::Start {
            (
                lemma_tag_step(model, reader, open, token, rating),
                open.push((name_of(token.content), token.scope)),
            )
        } else if token.kind == XmlKind::Empty {
            (lemma_tag_step(model, reader, open, token, rating), open)
        } else if token.kind == XmlKind::End {
            (lemma_end_step(model, reader, open, token, rating), open.drop_last())
        } else {
            lemma_other_step(model, reader, open, token, rating);
            (reader, open)
        };
        let end = lemma_keeps_beside(rest, after, next, opened, rating);
        lemma_read_all_concat(
            seen_after(model, token, rating),
            seen_from(rest, after, rating),
            reader,
        );
        end
    }
}

// ---------------------------------------------------------------------------
// The target of an added rating
// ---------------------------------------------------------------------------

/// Whether prefixes in scope are distinct and hold no colon.
pub open spec fn is_scope(scope: ScopeModel) -> bool {
    &&& forall|i: int, j: int|
        0 <= i < j < scope.len() ==> (#[trigger] scope[i]).0 != (#[trigger] scope[j]).0
    &&& forall|i: int|
        0 <= i < scope.len() ==> match (#[trigger] scope[i]).0 {
            Some(prefix) => !prefix.contains(0x3A),
            None => true,
        }
}

/// The namespaces in scope at the tag that a rating was added to.
pub open spec fn injected_scope(scope: ScopeModel, target: TargetModel) -> ScopeModel {
    match target.namespace_name {
        Some(_) => scope.push((Some(fresh_prefix(scope)), xmp_namespace())),
        None => scope,
    }
}

/// The attributes of the tag that a rating was added to.
pub open spec fn injected_attributes(
    attributes: AttributesModel,
    target: TargetModel,
    rating: u8,
) -> AttributesModel {
    let rated = attributes.push(Ok((target.rating_name, rating_bytes(rating))));
    match target.namespace_name {
        Some(name) => rated.push(Ok((name, xmp_namespace()))),
        None => rated,
    }
}

/// The content of the tag that a rating was added to.
pub open spec fn injected_content(content: Seq<u8>, target: TargetModel, rating: u8) -> Seq<u8> {
    let rated = with_attribute(content, target.rating_name, rating_bytes(rating));
    match target.namespace_name {
        Some(name) => with_attribute(rated, name, xmp_namespace()),
        None => rated,
    }
}

proof fn lemma_first_position(bytes: Seq<u8>, rest: Seq<u8>, byte: u8)
    requires
        !bytes.contains(byte),
    ensures
        position_of(bytes + seq![byte] + rest, byte) == bytes.len(),
    decreases bytes.len(),
{
    let whole = bytes + seq![byte] + rest;
    if bytes.len() == 0 {
        assert(whole[0] == byte);
    } else {
        assert(bytes[0] != byte) by {
            assert(bytes.contains(bytes[0]));
        }
        assert(whole[0] == bytes[0]);
        assert(whole.drop_first() =~= bytes.drop_first() + seq![byte] + rest);
        assert forall|b: u8| bytes.drop_first().contains(b) implies bytes.contains(b) by {
            let i = choose|i: int| 0 <= i < bytes.drop_first().len() && bytes.drop_first()[i] == b;
            assert(bytes[i + 1] == b);
        }
        lemma_first_position(bytes.drop_first(), rest, byte);
    }
}

/// A name made of a prefix without a colon, and of a local part.
proof fn lemma_qualified_name(prefix: Seq<u8>, local: Seq<u8>)
    requires
        !prefix.contains(0x3A),
    ensures
        prefix_of(prefix + seq![0x3Au8] + local) == Some(prefix),
        local_of(prefix + seq![0x3Au8] + local) == local,
{
    let name = prefix + seq![0x3Au8] + local;
    lemma_first_position(prefix, local, 0x3A);
    assert(name.take(prefix.len() as int) =~= prefix);
    assert(name.skip(prefix.len() as int + 1) =~= local);
}

proof fn lemma_literals()
    ensures
        bytes_of(":Rating") == seq![0x3Au8] + bytes_of("Rating"),
        bytes_of("xmlns:") == bytes_of("xmlns") + seq![0x3Au8],
        !bytes_of("xmlns").contains(0x3A),
        bytes_of("Rating") != bytes_of("Description"),
        bytes_of("Rating").len() == 6,
        bytes_of("Rating")[0] == 0x52,
{
    reveal_strlit(":Rating");
    reveal_strlit("Rating");
    reveal_strlit("xmlns:");
    reveal_strlit("xmlns");
    reveal_strlit("Description");
    lemma_ascii_bytes(":Rating"@);
    lemma_ascii_bytes("Rating"@);
    lemma_ascii_bytes("xmlns:"@);
    lemma_ascii_bytes("xmlns"@);
    lemma_ascii_bytes("Description"@);
    assert(bytes_of(":Rating") =~= seq![0x3Au8] + bytes_of("Rating"));
    assert(bytes_of("xmlns:") =~= bytes_of("xmlns") + seq![0x3Au8]);
    assert(bytes_of("Description").len() == 11);
}

/// A candidate prefix holds no colon and is not a rating's local name.
proof fn lemma_candidate_is_plain(k: nat)
    ensures
        !candidate(k).contains(0x3A),
        candidate(k) != bytes_of("Rating"),
{
    lemma_literals();
    reveal_strlit("xmp");
    reveal_strlit("viewrXmp");
    lemma_digits_are_ascii(k);
    let chars = if k == 0 {
        "xmp"@
    } else {
        "viewrXmp"@ + decimal(k)
    };
    assert forall|i: int| 0 <= i < chars.len() implies (#[trigger] chars[i]) as u32 <= 0x7F
        && chars[i] as u32 != 0x3A by {
        if k > 0 && i >= 8 {
            assert(chars[i] == decimal(k)[i - 8]);
        }
    }
    lemma_ascii_bytes(chars);
    assert(candidate(k)[0] != 0x52);
}

proof fn lemma_bound_to_present(scope: ScopeModel, i: int)
    requires
        is_scope(scope),
        0 <= i < scope.len(),
    ensures
        bound_to(scope, scope[i].0) == Some(scope[i].1),
    decreases scope.len(),
{
    if i > 0 {
        let rest = scope.drop_first();
        assert(is_scope(rest)) by {
            assert forall|a: int, b: int| 0 <= a < b < rest.len() implies (#[trigger] rest[a]).0 != (
            #[trigger] rest[b]).0 by {
                assert(rest[a] == scope[a + 1]);
                assert(rest[b] == scope[b + 1]);
            }
            assert forall|a: int| 0 <= a < rest.len() implies match (#[trigger] rest[a]).0 {
                Some(prefix) => !prefix.contains(0x3A),
                None => true,
            } by {
                assert(rest[a] == scope[a + 1]);
            }
        }
        assert(rest[i - 1] == scope[i]);
        lemma_bound_to_present(rest, i - 1);
        assert(scope[0].0 != scope[i].0);
    }
}

proof fn lemma_bound_to_pushed(
    scope: ScopeModel,
    added: (Option<Seq<u8>>, Seq<u8>),
    prefix: Option<Seq<u8>>,
)
    ensures
        bound_to(scope.push(added), prefix) == match bound_to(scope, prefix) {
            Some(namespace) => Some(namespace),
            None => if added.0 == prefix {
                Some(added.1)
            } else {
                None
            },
        },
    decreases scope.len(),
{
    let pushed = scope.push(added);
    if scope.len() == 0 {
        assert(pushed.drop_first() =~= seq![]);
        assert(bound_to(pushed.drop_first(), prefix) is None);
    } else {
        assert(pushed[0] == scope[0]);
        assert(pushed.drop_first() =~= scope.drop_first().push(added));
        lemma_bound_to_pushed(scope.drop_first(), added, prefix);
    }
}

proof fn lemma_bound_prefix_is_taken(scope: ScopeModel, prefix: Seq<u8>)
    requires
        bound_to(scope, Some(prefix)) is Some,
    ensures
        is_taken(scope, prefix),
    decreases scope.len(),
{
    if scope[0].0 == Some(prefix) {
        assert(is_taken(scope, prefix));
    } else {
        lemma_bound_prefix_is_taken(scope.drop_first(), prefix);
        let i = choose|i: int|
            0 <= i < scope.drop_first().len() && (#[trigger] scope.drop_first()[i]).0 == Some(prefix);
        assert(scope[i + 1].0 == Some(prefix));
    }
}

proof fn lemma_xmp_prefix(scope: ScopeModel)
    requires
        xmp_prefix(scope) is Some,
    ensures
        exists|i: int|
            0 <= i < scope.len() && (#[trigger] scope[i]).0 == xmp_prefix(scope)
                && names_namespace(scope[i].1, xmp_namespace()),
    decreases scope.len(),
{
    if scope[0].0 is Some && names_namespace(scope[0].1, xmp_namespace()) {
    } else {
        let rest = scope.drop_first();
        lemma_xmp_prefix(rest);
        let i = choose|i: int|
            0 <= i < rest.len() && (#[trigger] rest[i]).0 == xmp_prefix(rest) && names_namespace(
                rest[i].1,
                xmp_namespace(),
            );
        assert(scope[i + 1] == rest[i]);
    }
}

proof fn lemma_first_free(scope: ScopeModel, k: nat)
    requires
        !is_taken(scope, candidate(k)),
    ensures
        exists|j: nat| is_fresh(scope, j),
    decreases k,
{
    if exists|j: nat| j < k && !is_taken(scope, #[trigger] candidate(j)) {
        let j = choose|j: nat| j < k && !is_taken(scope, #[trigger] candidate(j));
        lemma_first_free(scope, j);
    } else {
        assert(is_fresh(scope, k));
    }
}

proof fn lemma_fresh_prefix(scope: ScopeModel)
    ensures
        !is_taken(scope, fresh_prefix(scope)),
        exists|k: nat| fresh_prefix(scope) == #[trigger] candidate(k),
{
    lemma_some_candidate_is_free(scope);
    let free = choose|k: nat| k <= scope.len() && !is_taken(scope, #[trigger] candidate(k));
    lemma_first_free(scope, free);
    let picked = choose|k: nat| is_fresh(scope, k);
    assert(fresh_prefix(scope) == candidate(picked));
}

/// The added attribute is a rating among the namespaces in scope at its tag, and
/// the added declaration is none.
pub(crate) proof fn lemma_added_names(scope: ScopeModel, position: int)
    requires
        is_scope(scope),
    ensures
        ({
            let target = target_of(scope, position);
            let after = injected_scope(scope, target);
            &&& is_rating_attribute(after, target.rating_name)
            &&& target.namespace_name matches Some(name) ==> !is_rating_attribute(after, name)
        }),
{
    let target = target_of(scope, position);
    let after = injected_scope(scope, target);
    lemma_literals();
    match xmp_prefix(scope) {
        Some(prefix) => {
            lemma_xmp_prefix(scope);
            let i = choose|i: int|
                0 <= i < scope.len() && (#[trigger] scope[i]).0 == xmp_prefix(scope)
                    && names_namespace(scope[i].1, xmp_namespace());
            lemma_bound_to_present(scope, i);
            lemma_qualified_name(prefix, bytes_of("Rating"));
            assert(target.rating_name =~= prefix + seq![0x3Au8] + bytes_of("Rating"));
        },
        None => {
            let prefix = fresh_prefix(scope);
            lemma_fresh_prefix(scope);
            let k = choose|k: nat| prefix == #[trigger] candidate(k);
            lemma_candidate_is_plain(k);
            lemma_qualified_name(prefix, bytes_of("Rating"));
            assert(target.rating_name =~= prefix + seq![0x3Au8] + bytes_of("Rating"));
            if bound_to(scope, Some(prefix)) is Some {
                lemma_bound_prefix_is_taken(scope, prefix);
            }
            lemma_bound_to_pushed(scope, (Some(prefix), xmp_namespace()), Some(prefix));
            lemma_qualified_name(bytes_of("xmlns"), prefix);
            assert(bytes_of("xmlns:") + prefix =~= bytes_of("xmlns") + seq![0x3Au8] + prefix);
        },
    }
}

// ---------------------------------------------------------------------------
// A document that was written and one that is read
// ---------------------------------------------------------------------------

/// The tokens of an updated document, each among the namespaces in scope there.
pub open spec fn updated_tokens(xml: Seq<char>, rating: u8) -> Seq<TokenModel> {
    let shown = seen_from(document_of(xml), rewrite_nothing(), rating);
    match rewritten_end(document_of(xml), rewrite_nothing(), rating) {
        Some(end) => match end.target {
            Some(target) if !end.wrote => {
                let tag = shown[target.position];
                shown.update(
                    target.position,
                    TokenModel {
                        content: injected_content(tag.content, target, rating),
                        scope: injected_scope(tag.scope, target),
                        ..tag
                    },
                )
            },
            _ => shown,
        },
        None => shown,
    }
}

/// Tokens without the namespaces around them.
pub open spec fn pieces_of(tokens: Seq<TokenModel>) -> Seq<PieceModel> {
    tokens.map_values(|token: TokenModel| (token.kind, token.content))
}

/// Whether attributes are ratings in both scopes or in none.
pub open spec fn attributes_alike(
    a: ScopeModel,
    b: ScopeModel,
    attributes: AttributesModel,
) -> bool {
    forall|i: int|
        0 <= i < attributes.len() ==> match #[trigger] attributes[i] {
            Ok((key, _)) => is_rating_attribute(a, key) == is_rating_attribute(b, key),
            Err(_) => true,
        }
}

/// Whether a token that is read is the one that was written: with the same
/// content, and with names that mean the same.
pub open spec fn sees_token(read: TokenModel, written: TokenModel) -> bool {
    let name = if written.kind == XmlKind::End {
        written.content
    } else {
        name_of(written.content)
    };
    let attributes = attributes_of(written.content, name_len_of(written.content));
    &&& read.kind == written.kind
    &&& read.content == written.content
    &&& (read.kind == XmlKind::Start || read.kind == XmlKind::Empty || read.kind == XmlKind::End)
        ==> {
        &&& is_description(read.scope, name) == is_description(written.scope, name)
        &&& is_rating_element(read.scope, name) == is_rating_element(written.scope, name)
    }
    &&& (read.kind == XmlKind::Start || read.kind == XmlKind::Empty) ==> attributes_alike(
        read.scope,
        written.scope,
        attributes,
    )
}

/// Whether a document consists of the tokens that were written.
pub open spec fn sees(document: DocumentModel, written: Seq<TokenModel>) -> bool {
    &&& document.len() == written.len() + 1
    &&& document.last() matches Ok(end) && end.kind == XmlKind::Eof
    &&& forall|i: int|
        0 <= i < written.len() ==> (#[trigger] document[i] matches Ok(token) && token.kind
            != XmlKind::Eof && sees_token(token, written[i]))
}

/// Whether a rating can be added to a document: the tag has the attributes that
/// were written into it, and none of its own becomes a rating by the namespace
/// that is declared with it.
pub open spec fn adds_cleanly(xml: Seq<char>, rating: u8) -> bool {
    let shown = seen_from(document_of(xml), rewrite_nothing(), rating);
    match rewritten_end(document_of(xml), rewrite_nothing(), rating) {
        Some(end) => match end.target {
            Some(target) if !end.wrote => {
                let tag = shown[target.position];
                let before = attributes_of(tag.content, name_len_of(tag.content));
                let content = injected_content(tag.content, target, rating);
                &&& is_scope(tag.scope)
                &&& attributes_alike(injected_scope(tag.scope, target), tag.scope, before)
                &&& attributes_of(content, name_len_of(content)) == injected_attributes(
                    before,
                    target,
                    rating,
                )
            },
            _ => true,
        },
        None => true,
    }
}

proof fn lemma_tag_rating_alike(a: ScopeModel, b: ScopeModel, attributes: AttributesModel)
    requires
        attributes_alike(a, b, attributes),
    ensures
        tag_rating(a, attributes) == tag_rating(b, attributes),
    decreases attributes.len(),
{
    if attributes.len() > 0 {
        let before = attributes.drop_last();
        assert(attributes_alike(a, b, before)) by {
            assert forall|i: int| 0 <= i < before.len() implies match #[trigger] before[i] {
                Ok((key, _)) => is_rating_attribute(a, key) == is_rating_attribute(b, key),
                Err(_) => true,
            } by {
                assert(before[i] == attributes[i]);
            }
        }
        lemma_tag_rating_alike(a, b, before);
        assert(attributes[attributes.len() - 1] == attributes.last());
    }
}

proof fn lemma_read_alike(model: ReadModel, read: TokenModel, written: TokenModel)
    requires
        sees_token(read, written),
    ensures
        read_token(model, read) == read_token(model, written),
{
    if read.kind == XmlKind::Start || read.kind == XmlKind::Empty {
        lemma_tag_rating_alike(
            read.scope,
            written.scope,
            attributes_of(written.content, name_len_of(written.content)),
        );
    }
}

/// Reading a document is reading its tokens.
proof fn lemma_read_document(document: DocumentModel, written: Seq<TokenModel>, model: ReadModel)
    requires
        sees(document, written),
    ensures
        read_from(document, model) == match read_all(written, model) {
            Some(end) => if end.open.len() == 0 && end.captures.len() == 0 {
                Some(end.texts)
            } else {
                None
            },
            None => None,
        },
    decreases written.len(),
{
    if written.len() > 0 {
        let token = document[0]->Ok_0;
        lemma_read_alike(model, token, written[0]);
        let rest = document.drop_first();
        assert(sees(rest, written.drop_first())) by {
            assert(rest.last() == document.last());
            assert forall|i: int| 0 <= i < written.drop_first().len() implies (
            #[trigger] rest[i] matches Ok(token) && token.kind != XmlKind::Eof && sees_token(
                token,
                written.drop_first()[i],
            )) by {
                assert(rest[i] == document[i + 1]);
            }
        }
        match read_token(model, written[0]) {
            Some(next) => lemma_read_document(rest, written.drop_first(), next),
            None => {},
        }
    }
}

/// What was read before stays in front.
proof fn lemma_texts_in_front(
    tokens: Seq<TokenModel>,
    model: ReadModel,
    front: Seq<Seq<u8>>,
)
    ensures
        read_all(tokens, ReadModel { texts: front + model.texts, ..model }) == match read_all(
            tokens,
            model,
        ) {
            Some(end) => Some(ReadModel { texts: front + end.texts, ..end }),
            None => None,
        },
        read_all(tokens, model) matches Some(end) ==> model.texts.len() <= end.texts.len(),
    decreases tokens.len(),
{
    if tokens.len() > 0 {
        let ahead = ReadModel { texts: front + model.texts, ..model };
        let token = tokens[0];
        assert forall|text: Seq<u8>| #[trigger]
            (front + model.texts).push(text) == front + model.texts.push(text) by {
            assert((front + model.texts).push(text) =~= front + model.texts.push(text));
        }
        match read_token(model, token) {
            Some(next) => {
                assert(read_token(ahead, token) == Some(
                    ReadModel { texts: front + next.texts, ..next },
                ));
                assert(model.texts.len() <= next.texts.len());
                lemma_texts_in_front(tokens.drop_first(), next, front);
            },
            None => {
                assert(read_token(ahead, token) is None);
            },
        }
    }
}

proof fn lemma_rewrite_grows(model: RewriteModel, token: TokenModel, rating: u8)
    requires
        rewrite_token(model, token, rating) is Ok,
    ensures
        ({
            let next = rewrite_token(model, token, rating)->Ok_0;
            &&& model.pieces.len() <= next.pieces.len()
            &&& next.pieces.take(model.pieces.len() as int) == model.pieces
            &&& model.wrote ==> next.wrote
            &&& model.target is Some ==> next.target == model.target
        }),
{
    let next = rewrite_token(model, token, rating)->Ok_0;
    assert(next.pieces.take(model.pieces.len() as int) =~= model.pieces);
}

/// What a reader sees is what the rewrite wrote.
pub(crate) proof fn lemma_seen_is_written(tokens: DocumentModel, model: RewriteModel, rating: u8)
    requires
        rewritten_end(tokens, model, rating) is Some,
    ensures
        ({
            let end = rewritten_end(tokens, model, rating)->Some_0;
            &&& end.pieces == model.pieces + pieces_of(seen_from(tokens, model, rating))
            &&& model.wrote ==> end.wrote
            &&& model.target is Some ==> end.target == model.target
        }),
    decreases tokens.len(),
{
    let token = tokens[0]->Ok_0;
    let shown = seen_from(tokens, model, rating);
    if token.kind == XmlKind::Eof {
        assert(model.pieces + pieces_of(shown) =~= model.pieces);
    } else {
        let next = rewrite_token(model, token, rating)->Ok_0;
        lemma_rewrite_grows(model, token, rating);
        lemma_seen_is_written(tokens.drop_first(), next, rating);
        let first = seen_after(model, token, rating);
        let rest = seen_from(tokens.drop_first(), next, rating);
        assert(next.pieces =~= model.pieces + pieces_of(first)) by {
            assert forall|i: int| 0 <= i < next.pieces.len() implies next.pieces[i] == (model.pieces
                + pieces_of(first))[i] by {
                if i < model.pieces.len() {
                    assert(next.pieces.take(model.pieces.len() as int)[i] == next.pieces[i]);
                }
            }
        }
        assert(pieces_of(shown) =~= pieces_of(first) + pieces_of(rest));
        assert(model.pieces + pieces_of(shown) =~= next.pieces + pieces_of(rest));
    }
}

/// The tag that a rating is added to is a description without one.
pub(crate) proof fn lemma_target_is_seen(tokens: DocumentModel, model: RewriteModel, rating: u8) -> (at: int)
    requires
        rewritten_end(tokens, model, rating) is Some,
        !rewritten_end(tokens, model, rating)->Some_0.wrote,
        rewritten_end(tokens, model, rating)->Some_0.target is Some,
        model.target is None,
        tags_read_back(tokens, rating),
    ensures
        ({
            let target = rewritten_end(tokens, model, rating)->Some_0.target->Some_0;
            let shown = seen_from(tokens, model, rating);
            let tag = shown[at];
            &&& at == target.position - model.pieces.len()
            &&& 0 <= at < shown.len()
            &&& tag.kind == XmlKind::Start || tag.kind == XmlKind::Empty
            &&& is_description(tag.scope, name_of(tag.content))
            &&& target == target_of(tag.scope, target.position)
            &&& tag_rating(tag.scope, attributes_of(tag.content, name_len_of(tag.content))) == Some(
                None::<Seq<u8>>,
            )
        }),
    decreases tokens.len(),
{
    let token = tokens[0]->Ok_0;
    let next = rewrite_token(model, token, rating)->Ok_0;
    let rest = tokens.drop_first();
    assert(tags_read_back(rest, rating)) by {
        assert forall|i: int| 0 <= i < rest.len() implies match #[trigger] rest[i] {
            Ok(token) => (token.kind == XmlKind::Start || token.kind == XmlKind::Empty)
                ==> tag_reads_back(token, rating),
            Err(_) => true,
        } by {
            assert(rest[i] == tokens[i + 1]);
        }
    }
    let first = seen_after(model, token, rating);
    lemma_rewrite_grows(model, token, rating);
    lemma_seen_is_written(rest, next, rating);
    if next.target is Some {
        let (content, found) = tag_content(token, rating)->Ok_0;
        lemma_tag_is_read(token, rating, seq![]);
        let tag = seen((token.kind, content), token.scope);
        assert(next.pieces == model.pieces.push((token.kind, content)));
        assert(first =~= seq![tag]);
        let attributes = attributes_of(token.content, name_len_of(token.content));
        lemma_rated_tag(token.scope, token.content, attributes, rating);
        0
    } else {
        let at = lemma_target_is_seen(rest, next, rating);
        first.len() + at
    }
}

proof fn lemma_name_of_longer(content: Seq<u8>, rest: Seq<u8>)
    requires
        rest.len() > 0,
        is_space(rest[0]),
    ensures
        name_of(content + rest) == name_of(content),
        name_len_of(content + rest) == name_len_of(content),
    decreases content.len(),
{
    lemma_name_len(content);
    lemma_name_len(content + rest);
    if content.len() == 0 {
        assert((content + rest)[0] == rest[0]);
    } else if !is_space(content[0]) {
        assert((content + rest).drop_first() =~= content.drop_first() + rest);
        assert((content + rest)[0] == content[0]);
        lemma_name_of_longer(content.drop_first(), rest);
    } else {
        assert((content + rest)[0] == content[0]);
    }
    assert(name_of(content + rest) =~= name_of(content));
}

proof fn lemma_injected_name(content: Seq<u8>, target: TargetModel, rating: u8)
    ensures
        name_of(injected_content(content, target, rating)) == name_of(content),
{
    lemma_space_is_a_byte();
    let whole = injected_content(content, target, rating);
    let rest = whole.skip(content.len() as int);
    assert(whole =~= content + rest);
    assert(rest[0] == bytes_of(" ")[0]);
    lemma_name_of_longer(content, rest);
}

/// Reading the tag that a rating was added to.
pub(crate) proof fn lemma_added_rating_is_read(tag: TokenModel, position: int, rating: u8)
    requires
        is_scope(tag.scope),
        is_description(tag.scope, name_of(tag.content)),
        ({
            let target = target_of(tag.scope, position);
            let before = attributes_of(tag.content, name_len_of(tag.content));
            let content = injected_content(tag.content, target, rating);
            &&& tag_rating(tag.scope, before) == Some(None::<Seq<u8>>)
            &&& attributes_alike(injected_scope(tag.scope, target), tag.scope, before)
            &&& attributes_of(content, name_len_of(content)) == injected_attributes(
                before,
                target,
                rating,
            )
        }),
    ensures
        ({
            let target = target_of(tag.scope, position);
            let added = TokenModel {
                content: injected_content(tag.content, target, rating),
                scope: injected_scope(tag.scope, target),
                ..tag
            };
            &&& name_of(added.content) == name_of(tag.content)
            &&& is_description(added.scope, name_of(tag.content))
            &&& !is_rating_element(added.scope, name_of(tag.content))
            &&& !is_rating_element(tag.scope, name_of(tag.content))
            &&& texts_after(seq![], added) == Some(seq![rating_bytes(rating)])
            &&& texts_after(seq![], tag) == Some(Seq::<Seq<u8>>::empty())
        }),
{
    lemma_digits_are_plain(rating);
    let target = target_of(tag.scope, position);
    let scope = injected_scope(tag.scope, target);
    let before = attributes_of(tag.content, name_len_of(tag.content));
    let name = name_of(tag.content);
    lemma_injected_name(tag.content, target, rating);
    lemma_added_names(tag.scope, position);
    lemma_literals();
    lemma_tag_rating_alike(scope, tag.scope, before);
    if target.namespace_name is Some {
        lemma_bound_to_pushed(
            tag.scope,
            (Some(fresh_prefix(tag.scope)), xmp_namespace()),
            prefix_of(name),
        );
    }
    let rated = before.push(Ok((target.rating_name, rating_bytes(rating))));
    assert(rated.drop_last() =~= before);
    assert(tag_rating(scope, rated) == Some(Some(rating_bytes(rating))));
    if let Some(namespace) = target.namespace_name {
        let all = injected_attributes(before, target, rating);
        assert(all.drop_last() =~= rated);
        assert(tag_rating(scope, all) == Some(Some(rating_bytes(rating))));
    }
    assert(Seq::<Seq<u8>>::empty().push(rating_bytes(rating)) =~= seq![rating_bytes(rating)]);
}

/// Reading tokens of which one tag, that held no rating, holds the only one.
proof fn lemma_read_with_added(
    shown: Seq<TokenModel>,
    at: int,
    added: TokenModel,
    reader: ReadModel,
    rating: u8,
)
    requires
        0 <= at < shown.len(),
        shown[at].kind == XmlKind::Start || shown[at].kind == XmlKind::Empty,
        added.kind == shown[at].kind,
        read_all(shown, read_nothing()) == Some(reader),
        reader.texts.len() == 0,
        ({
            let tag = shown[at];
            &&& name_of(added.content) == name_of(tag.content)
            &&& is_description(tag.scope, name_of(tag.content))
            &&& is_description(added.scope, name_of(tag.content))
            &&& !is_rating_element(added.scope, name_of(tag.content))
            &&& !is_rating_element(tag.scope, name_of(tag.content))
            &&& texts_after(seq![], added) == Some(seq![rating_bytes(rating)])
            &&& texts_after(seq![], tag) == Some(Seq::<Seq<u8>>::empty())
        }),
    ensures
        read_all(shown.update(at, added), read_nothing()) == Some(
            ReadModel { texts: seq![rating_bytes(rating)], ..reader },
        ),
{
    let tag = shown[at];
    let all = shown.update(at, added);
    let (a, b) = (shown.take(at), shown.skip(at + 1));
    let front = seq![rating_bytes(rating)];
    assert(shown =~= a + (seq![tag] + b));
    assert(all =~= a + (seq![added] + b));
    lemma_read_all_concat(a, seq![tag] + b, read_nothing());
    lemma_read_all_concat(a, seq![added] + b, read_nothing());
    let before = read_all(a, read_nothing())->Some_0;
    lemma_texts_in_front(seq![tag] + b, before, seq![]);
    assert(before.texts =~= seq![]);
    assert((seq![tag] + b).drop_first() =~= b);
    assert((seq![added] + b).drop_first() =~= b);
    let passed = read_token(before, tag)->Some_0;
    assert(passed.texts =~= seq![]);
    assert(front + passed.texts =~= front);
    assert(read_token(before, added) == Some(ReadModel { texts: front + passed.texts, ..passed }));
    lemma_texts_in_front(b, passed, front);
    assert(reader.texts =~= seq![]);
    assert(front + reader.texts =~= front);
}

pub(crate) proof fn lemma_rewrite_ends(tokens: DocumentModel, model: RewriteModel, rating: u8)
    ensures
        rewrite_from(tokens, model, rating) is Ok ==> rewritten_end(tokens, model, rating) is Some
            && rewrite_from(tokens, model, rating) == finished(
            rewritten_end(tokens, model, rating)->Some_0,
            rating,
        ),
    decreases tokens.len(),
{
    if tokens.len() > 0 {
        if let Ok(token) = tokens[0] {
            if token.kind != XmlKind::Eof {
                if let Ok(next) = rewrite_token(model, token, rating) {
                    lemma_rewrite_ends(tokens.drop_first(), next, rating);
                }
            }
        }
    }
}

/// The rating that a rewrite wrote is read back: a reader that sees the tokens of
/// the updated document finds ratings in it, and every one of them is the new
/// rating.
///
/// Given are what an XML reader does with any document: closing tags match, and a
/// tag has the attributes written into it.
pub proof fn law_rewritten_rating_is_read_back(xml: Seq<char>, rating: u8, updated: Seq<char>)
    requires
        rewrite_update(xml, rating) is Ok,
        tags_match(document_of(xml), seq![]),
        tags_read_back(document_of(xml), rating),
        adds_cleanly(xml, rating),
        sees(document_of(updated), updated_tokens(xml, rating)),
    ensures
        rewrite_update(xml, rating) == Ok::<Seq<u8>, Seq<char>>(
            written(pieces_of(updated_tokens(xml, rating))),
        ),
        rating_texts_of(updated) matches Some(texts) && texts.len() > 0 && forall|i: int|
            0 <= i < texts.len() ==> #[trigger] texts[i] == rating_bytes(rating),
{
    let tokens = document_of(xml);
    let start = rewrite_nothing();
    lemma_rewrite_ends(tokens, start, rating);
    let end = rewritten_end(tokens, start, rating)->Some_0;
    let shown = seen_from(tokens, start, rating);
    lemma_seen_is_written(tokens, start, rating);
    assert(end.pieces =~= pieces_of(shown));
    assert(side_by_side(start, read_nothing(), seq![], rating));
    let (reader, left) = lemma_keeps_beside(tokens, start, read_nothing(), seq![], rating);
    if end.ratings.len() > 0 {
        assert(end.ratings[0].0 < left.len());
    }
    let all = updated_tokens(xml, rating);
    lemma_read_document(document_of(updated), all, read_nothing());
    if !end.wrote {
        let target = end.target->Some_0;
        let at = lemma_target_is_seen(tokens, start, rating);
        let tag = shown[at];
        let added = all[at];
        lemma_added_rating_is_read(tag, target.position, rating);
        assert(pieces_of(all) =~= injected(end.pieces, target, rating));
        assert(all =~= shown.update(at, added));
        lemma_read_with_added(shown, at, added, reader, rating);
    }
}

// ---------------------------------------------------------------------------
// Spliced attributes
// ---------------------------------------------------------------------------

/// The attributes of a description whose rating value was replaced.
pub open spec fn spliced_attributes(
    scope: ScopeModel,
    attributes: AttributesModel,
    rating: u8,
) -> AttributesModel {
    attributes.map_values(
        |attribute: Result<(Seq<u8>, Seq<u8>), Seq<char>>|
            match attribute {
                Ok((key, _)) if is_rating_attribute(scope, key) => Ok((key, rating_bytes(rating))),
                other => other,
            },
    )
}

/// Whether a token that is read is one whose rating value was replaced.
pub open spec fn sees_spliced_token(read: TokenModel, before: TokenModel, rating: u8) -> bool {
    let name = name_of(before.content);
    let attributes = attributes_of(before.content, name_len_of(before.content));
    &&& read.kind == before.kind
    &&& read.scope == before.scope
    &&& (read.kind == XmlKind::Start || read.kind == XmlKind::Empty) ==> {
        &&& name_of(read.content) == name
        &&& attributes_of(read.content, name_len_of(read.content)) == if is_description(
            before.scope,
            name,
        ) {
            spliced_attributes(before.scope, attributes, rating)
        } else {
            attributes
        }
    }
}

/// Whether a document is read as it was but for the rating values.
pub open spec fn sees_spliced(document: DocumentModel, before: DocumentModel, rating: u8) -> bool {
    &&& document.len() == before.len()
    &&& forall|i: int|
        0 <= i < before.len() ==> match #[trigger] before[i] {
            Ok(token) => document[i] matches Ok(read) && sees_spliced_token(read, token, rating),
            Err(_) => document[i] is Err,
        }
}

proof fn lemma_spliced_tag(
    scope: ScopeModel,
    content: Seq<u8>,
    attributes: AttributesModel,
    rating: u8,
)
    requires
        tag_span(scope, content, attributes) is Ok,
    ensures
        tag_rating(scope, spliced_attributes(scope, attributes, rating)) == Some(
            if tag_span(scope, content, attributes)->Ok_0.rating is Some {
                Some(rating_bytes(rating))
            } else {
                None::<Seq<u8>>
            },
        ),
    decreases attributes.len(),
{
    lemma_digits_are_plain(rating);
    if attributes.len() > 0 {
        let spliced = spliced_attributes(scope, attributes, rating);
        lemma_spliced_tag(scope, content, attributes.drop_last(), rating);
        assert(spliced.drop_last() =~= spliced_attributes(scope, attributes.drop_last(), rating));
    }
}

proof fn lemma_scan_keeps_elements(doc: Seq<u8>, tokens: DocumentModel, model: SpliceModel)
    requires
        scan_from(doc, tokens, model) is Ok,
    ensures
        model.element ==> scan_from(doc, tokens, model)->Ok_0.element,
    decreases tokens.len(),
{
    let token = tokens[0]->Ok_0;
    if token.kind != XmlKind::Eof {
        lemma_scan_keeps_elements(
            doc,
            tokens.drop_first(),
            scan_token(doc, model, token)->Ok_0,
        );
    }
}

/// A reader of the spliced document finds one rating per replaced value.
proof fn lemma_read_spliced(
    doc: Seq<u8>,
    before: DocumentModel,
    document: DocumentModel,
    model: SpliceModel,
    reader: ReadModel,
    rating: u8,
)
    requires
        scan_from(doc, before, model) is Ok,
        !scan_from(doc, before, model)->Ok_0.element,
        sees_spliced(document, before, rating),
        reader.open == model.open,
        reader.captures.len() == 0,
        reader.texts.len() == model.spans.len(),
        forall|i: int|
            0 <= i < reader.texts.len() ==> #[trigger] reader.texts[i] == rating_bytes(rating),
    ensures
        read_from(document, reader) matches Some(texts) && texts.len() == scan_from(
            doc,
            before,
            model,
        )->Ok_0.spans.len() && forall|i: int|
            0 <= i < texts.len() ==> #[trigger] texts[i] == rating_bytes(rating),
    decreases before.len(),
{
    let token = before[0]->Ok_0;
    let read = document[0]->Ok_0;
    assert(sees_spliced_token(read, token, rating));
    if token.kind != XmlKind::Eof {
        let next = scan_token(doc, model, token)->Ok_0;
        let rest = before.drop_first();
        lemma_scan_keeps_elements(doc, rest, next);
        if token.kind == XmlKind::Start || token.kind == XmlKind::Empty {
            let attributes = attributes_of(token.content, name_len_of(token.content));
            if is_description(token.scope, name_of(token.content)) {
                lemma_spliced_tag(token.scope, token.content, attributes, rating);
            }
        }
        let after = read_token(reader, read)->Some_0;
        assert(read_token(reader, read) == Some(after));
        assert(after.open =~= next.open);
        assert(sees_spliced(document.drop_first(), rest, rating)) by {
            assert forall|i: int| 0 <= i < rest.len() implies match #[trigger] rest[i] {
                Ok(token) => document.drop_first()[i] matches Ok(read) && sees_spliced_token(
                    read,
                    token,
                    rating,
                ),
                Err(_) => document.drop_first()[i] is Err,
            } by {
                assert(rest[i] == before[i + 1]);
            }
        }
        lemma_read_spliced(doc, rest, document.drop_first(), next, after, rating);
    }
}

/// The rating that was spliced into attributes is read back: a reader that sees
/// the document as it was but for the rating values finds ratings in it, and
/// every one of them is the new rating.
pub proof fn law_spliced_rating_is_read_back(xml: Seq<char>, rating: u8, updated: Seq<char>)
    requires
        attribute_update(xml, rating) matches Ok(Some(_)),
        sees_spliced(document_of(updated), document_of(xml), rating),
    ensures
        rating_texts_of(updated) matches Some(texts) && texts.len() > 0 && forall|i: int|
            0 <= i < texts.len() ==> #[trigger] texts[i] == rating_bytes(rating),
{
    lemma_read_spliced(
        vstd::utf8::encode_utf8(xml),
        document_of(xml),
        document_of(updated),
        scan_nothing(),
        read_nothing(),
        rating,
    );
}

/// A rewrite copies every token that is neither a description, nor a rating
/// element, nor the value of one, and a description keeps its name.
pub proof fn law_rewrite_copies_other_tokens(model: RewriteModel, token: TokenModel, rating: u8)
    requires
        rewrite_token(model, token, rating) is Ok,
        token.kind != XmlKind::Eof,
    ensures
        ({
            let next = rewrite_token(model, token, rating)->Ok_0;
            let tag = token.kind == XmlKind::Start || token.kind == XmlKind::Empty;
            let description = is_description(token.scope, name_of(token.content));
            let element = is_rating_element(
                token.scope,
                if tag {
                    name_of(token.content)
                } else {
                    token.content
                },
            );
            let value = in_rating_element(model) && (token.kind == XmlKind::Text || token.kind
                == XmlKind::CData);
            &&& (tag ==> !description && !element) && (token.kind == XmlKind::End ==> !element)
                && !value ==> next.pieces == model.pieces.push((token.kind, token.content))
            &&& tag && description && !element ==> next.pieces.len() == model.pieces.len() + 1
                && next.pieces.last().0 == token.kind && name_of(next.pieces.last().1) == name_of(
                token.content,
            )
        }),
{
    if (token.kind == XmlKind::Start || token.kind == XmlKind::Empty) && is_description(
        token.scope,
        name_of(token.content),
    ) {
        lemma_rewritten_tag_keeps_its_name(
            token.scope,
            token.content,
            attributes_of(token.content, name_len_of(token.content)),
            rating,
        );
    }
}

pub(crate) proof fn lemma_requoted_without_quotes(value: Seq<u8>)
    requires
        !value.contains(0x22),
    ensures
        requoted(value) == value,
    decreases value.len(),
{
    if value.len() > 0 {
        let before = value.drop_last();
        assert forall|b: u8| before.contains(b) implies value.contains(b) by {
            let i = choose|i: int| 0 <= i < before.len() && before[i] == b;
            assert(value[i] == b);
        }
        lemma_requoted_without_quotes(before);
        assert(value.contains(value.last())) by {
            assert(value[value.len() - 1] == value.last());
        }
        assert(before.push(value.last()) =~= value);
    } else {
        assert(requoted(value) =~= value);
    }
}

/// An update keeps the attributes of a description in order, each under its
/// name. A value that is no rating stays as it is; only double quotes in it are
/// spelled as entities.
pub proof fn law_update_keeps_other_attributes(
    scope: ScopeModel,
    attributes: AttributesModel,
    rating: u8,
    i: int,
)
    requires
        0 <= i < attributes.len(),
        attributes[i] is Ok,
        !is_rating_attribute(scope, attributes[i]->Ok_0.0),
    ensures
        rated_attributes(scope, attributes, rating).len() == attributes.len(),
        rated_attributes(scope, attributes, rating)[i] matches Ok((key, value)) && key
            == attributes[i]->Ok_0.0 && value == requoted(attributes[i]->Ok_0.1),
        !attributes[i]->Ok_0.1.contains(0x22) ==> rated_attributes(scope, attributes, rating)[i]
            == attributes[i],
        spliced_attributes(scope, attributes, rating)[i] == attributes[i],
{
    if !attributes[i]->Ok_0.1.contains(0x22) {
        lemma_requoted_without_quotes(attributes[i]->Ok_0.1);
    }
}

/// Whether an XML reader sees an updated document as it was written: a spliced
/// one as it was but for the rating values, a rewritten one as the tokens that
/// were written, with closing tags that match and tags that have the attributes
/// written into them.
pub open spec fn sees_update(xml: Seq<char>, rating: u8, updated: Seq<char>) -> bool {
    match attribute_update(xml, rating) {
        Ok(Some(_)) => sees_spliced(document_of(updated), document_of(xml), rating),
        _ => {
            &&& tags_match(document_of(xml), seq![])
            &&& tags_read_back(document_of(xml), rating)
            &&& adds_cleanly(xml, rating)
            &&& sees(document_of(updated), updated_tokens(xml, rating))
        },
    }
}

/// The rating that an update wrote is read back, whichever way it was written:
/// a reader that sees the updated document as it was written finds ratings in
/// it, and every one of them is the new rating.
pub proof fn law_written_rating_is_read_back(xml: Seq<char>, rating: u8, updated: Seq<char>)
    requires
        updated_bytes(xml, rating) is Ok,
        sees_update(xml, rating, updated),
    ensures
        rating_texts_of(updated) matches Some(texts) && texts.len() > 0 && forall|i: int|
            0 <= i < texts.len() ==> #[trigger] texts[i] == rating_bytes(rating),
{
    if attribute_update(xml, rating) matches Ok(Some(_)) {
        law_spliced_rating_is_read_back(xml, rating, updated);
    } else {
        law_rewritten_rating_is_read_back(xml, rating, updated);
    }
}

// ---------------------------------------------------------------------------
// A new sidecar
// ---------------------------------------------------------------------------

/// Whether a text is a number in decimal digits, with no digit too many.
pub open spec fn writes_number(digits: Seq<char>, number: int) -> bool {
    &&& digits.len() > 0
    &&& forall|i: int| 0 <= i < digits.len() ==> 48 <= (#[trigger] digits[i]) as int <= 57
    &&& digits.len() > 1 ==> digits[0] != '0'
    &&& digits_value(digits) == number
}

/// What a new sidecar holds in front of its rating.
pub open spec fn sidecar_head() -> Seq<char> {
    "<?xpacket begin=\"\u{FEFF}\" id=\"W5M0MpCehiHzreSzNTczkc9d\"?>\n<x:xmpmeta xmlns:x=\"adobe:ns:meta/\" x:xmptk=\"viewr\">\n <rdf:RDF xmlns:rdf=\"http://www.w3.org/1999/02/22-rdf-syntax-ns#\">\n  <rdf:Description rdf:about=\"\"\n    xmlns:xmp=\"http://ns.adobe.com/xap/1.0/\"\n   xmp:Rating=\""@
}

/// What a new sidecar holds behind its rating.
pub open spec fn sidecar_tail() -> Seq<char> {
    "\"/>\n </rdf:RDF>\n</x:xmpmeta>\n<?xpacket end=\"w\"?>"@
}

/// What stands between the quotes of the rating in a new sidecar.
pub open spec fn sidecar_rating(text: Seq<char>) -> Seq<char> {
    text.subrange(sidecar_head().len() as int, text.len() - sidecar_tail().len())
}

/// A new sidecar holds the digits of its rating between the quotes of the rating
/// attribute of its one description, and nothing else depends on the rating.
/// Without a sidecar this is the text that comes of rating a photo.
pub proof fn law_new_sidecar_holds_the_rating(
    rating: u8,
    text: String,
    content: Result<String, XmpError>,
)
    requires
        call_ensures(new_sidecar, (rating,), text),
        call_ensures(rated_sidecar, (None, rating), content),
    ensures
        text@.len() > sidecar_head().len() + sidecar_tail().len(),
        text@.take(sidecar_head().len() as int) == sidecar_head(),
        text@.skip(text@.len() - sidecar_tail().len()) == sidecar_tail(),
        writes_number(sidecar_rating(text@), rating as int),
        content matches Ok(written) && written@ == text@,
{
    law_decimal_digits_read_as_the_number(rating as nat, 0);
    assert(sidecar_rating(text@) =~= decimal(rating as nat));
    assert(text@.take(sidecar_head().len() as int) =~= sidecar_head());
    assert(text@.skip(text@.len() - sidecar_tail().len()) =~= sidecar_tail());
}

/// The rating of a new sidecar stands in a rating attribute: its opening quote is
/// in front of it, behind the attribute's name, and its closing quote behind it.
pub proof fn law_new_sidecar_quotes_the_rating(rating: u8, text: String)
    requires
        call_ensures(new_sidecar, (rating,), text),
    ensures
        ({
            let at = sidecar_head().len() as int;
            let end = text@.len() - sidecar_tail().len();
            &&& at >= 12 && text@.subrange(at - 12, at) == "xmp:Rating=\""@
            &&& 0 <= end < text@.len() && text@[end] == '"'
        }),
{
    reveal_strlit("<?xpacket begin=\"\u{FEFF}\" id=\"W5M0MpCehiHzreSzNTczkc9d\"?>\n<x:xmpmeta xmlns:x=\"adobe:ns:meta/\" x:xmptk=\"viewr\">\n <rdf:RDF xmlns:rdf=\"http://www.w3.org/1999/02/22-rdf-syntax-ns#\">\n  <rdf:Description rdf:about=\"\"\n    xmlns:xmp=\"http://ns.adobe.com/xap/1.0/\"\n   xmp:Rating=\"");
    reveal_strlit("\"/>\n </rdf:RDF>\n</x:xmpmeta>\n<?xpacket end=\"w\"?>");
    reveal_strlit("xmp:Rating=\"");
    let at = sidecar_head().len() as int;
    assert(text@.subrange(at - 12, at) =~= "xmp:Rating=\""@);
}

/// New sidecars of two ratings differ.
pub proof fn law_new_sidecars_of_two_ratings_differ(a: u8, b: u8, first: String, second: String)
    requires
        call_ensures(new_sidecar, (a,), first),
        call_ensures(new_sidecar, (b,), second),
        first@ == second@,
    ensures
        a == b,
{
    law_decimal_digits_read_as_the_number(a as nat, b as nat);
    assert(sidecar_rating(first@) =~= decimal(a as nat));
    assert(sidecar_rating(second@) =~= decimal(b as nat));
}

/// Whether a tag is none of those that hold a rating.
pub open spec fn is_other_tag(token: TokenModel) -> bool {
    &&& !is_description(token.scope, name_of(token.content))
    &&& first_error(attributes_of(token.content, name_len_of(token.content))) is None
}

/// Whether a document reads like a new sidecar: two nested elements around one
/// description, which names nothing, declares the XMP namespace, and has a rating
/// with the given raw value.
pub open spec fn sees_new_sidecar(document: DocumentModel, value: Seq<u8>) -> bool {
    &&& document.len() == 14
    &&& forall|i: int| 0 <= i < 14 ==> (#[trigger] document[i]) is Ok
    &&& document[0]->Ok_0.kind == XmlKind::PI
    &&& document[1]->Ok_0.kind == XmlKind::Text
    &&& document[2]->Ok_0.kind == XmlKind::Start
    &&& document[3]->Ok_0.kind == XmlKind::Text
    &&& document[4]->Ok_0.kind == XmlKind::Start
    &&& document[5]->Ok_0.kind == XmlKind::Text
    &&& document[6]->Ok_0.kind == XmlKind::Empty
    &&& document[7]->Ok_0.kind == XmlKind::Text
    &&& document[8]->Ok_0.kind == XmlKind::End
    &&& document[9]->Ok_0.kind == XmlKind::Text
    &&& document[10]->Ok_0.kind == XmlKind::End
    &&& document[11]->Ok_0.kind == XmlKind::Text
    &&& document[12]->Ok_0.kind == XmlKind::PI
    &&& document[13]->Ok_0.kind == XmlKind::Eof
    &&& is_other_tag(document[2]->Ok_0)
    &&& is_other_tag(document[4]->Ok_0)
    &&& {
        let tag = document[6]->Ok_0;
        &&& name_of(tag.content) == bytes_of("rdf") + seq![0x3Au8] + bytes_of("Description")
        &&& bound_to(tag.scope, Some(bytes_of("rdf"))) == Some(rdf_namespace())
        &&& bound_to(tag.scope, Some(bytes_of("xmp"))) == Some(xmp_namespace())
        &&& attributes_of(tag.content, name_len_of(tag.content)) == seq![
            Ok::<(Seq<u8>, Seq<u8>), Seq<char>>(
                (bytes_of("rdf") + seq![0x3Au8] + bytes_of("about"), Seq::<u8>::empty()),
            ),
            Ok((bytes_of("xmlns") + seq![0x3Au8] + bytes_of("xmp"), xmp_namespace())),
            Ok((bytes_of("xmp") + seq![0x3Au8] + bytes_of("Rating"), value)),
        ]
    }
}

proof fn lemma_sidecar_names()
    ensures
        !bytes_of("rdf").contains(0x3A),
        !bytes_of("xmp").contains(0x3A),
        !bytes_of("xmlns").contains(0x3A),
        bytes_of("about") != bytes_of("Rating"),
        bytes_of("xmp") != bytes_of("Rating"),
{
    reveal_strlit("rdf");
    reveal_strlit("xmp");
    reveal_strlit("xmlns");
    reveal_strlit("about");
    reveal_strlit("Rating");
    lemma_ascii_bytes("rdf"@);
    lemma_ascii_bytes("xmp"@);
    lemma_ascii_bytes("xmlns"@);
    lemma_ascii_bytes("about"@);
    lemma_ascii_bytes("Rating"@);
    assert(bytes_of("about").len() == 5);
    assert(bytes_of("xmp").len() == 3);
    assert(bytes_of("Rating").len() == 6);
}

/// A reader that sees a new sidecar as it was written, with what stands between the
/// quotes as the value of its rating, finds one rating: the digits of the number
/// that the sidecar was made for.
pub proof fn law_rating_of_a_new_sidecar_is_read_back(rating: u8, text: String)
    requires
        call_ensures(new_sidecar, (rating,), text),
        sees_new_sidecar(document_of(text@), vstd::utf8::encode_utf8(sidecar_rating(text@))),
    ensures
        rating_texts_of(text@) matches Some(texts) && texts.len() == 1 && texts[0]
            == rating_bytes(rating) && texts[0] == vstd::utf8::encode_utf8(sidecar_rating(text@))
            && writes_number(sidecar_rating(text@), rating as int),
{
    let document = document_of(text@);
    let value = vstd::utf8::encode_utf8(sidecar_rating(text@));
    law_decimal_digits_read_as_the_number(rating as nat, 0);
    assert(sidecar_rating(text@) =~= decimal(rating as nat));
    lemma_digits_are_plain(rating);
    lemma_sidecar_names();
    lemma_qualified_name(bytes_of("rdf"), bytes_of("Description"));
    lemma_qualified_name(bytes_of("rdf"), bytes_of("about"));
    lemma_qualified_name(bytes_of("xmlns"), bytes_of("xmp"));
    lemma_qualified_name(bytes_of("xmp"), bytes_of("Rating"));
    let tag = document[6]->Ok_0;
    let attributes = attributes_of(tag.content, name_len_of(tag.content));
    assert(is_description(tag.scope, name_of(tag.content)));
    assert(tag_rating(tag.scope, attributes) == Some(Some(value))) by {
        let two = attributes.drop_last();
        let one = two.drop_last();
        assert(one.drop_last() =~= seq![]);
        assert(tag_rating(tag.scope, one.drop_last()) == Some(None::<Seq<u8>>));
        assert(tag_rating(tag.scope, one) == Some(None::<Seq<u8>>));
        assert(tag_rating(tag.scope, two) == Some(None::<Seq<u8>>));
    }
    let outer = ReadModel { open: seq![false], captures: seq![], texts: seq![] };
    let inner = ReadModel { open: seq![false, false], captures: seq![], texts: seq![] };
    let found = ReadModel { open: seq![false, false], captures: seq![], texts: seq![value] };
    let left = ReadModel { open: seq![false], captures: seq![], texts: seq![value] };
    let done = ReadModel { open: seq![], captures: seq![], texts: seq![value] };
    let nothing = read_nothing();
    assert(read_token(nothing, document[0]->Ok_0) == Some(nothing));
    assert(read_token(nothing, document[1]->Ok_0) == Some(nothing));
    assert(read_token(nothing, document[2]->Ok_0)->0 =~= outer);
    assert(read_token(outer, document[3]->Ok_0) == Some(outer));
    assert(read_token(outer, document[4]->Ok_0)->0 =~= inner);
    assert(read_token(inner, document[5]->Ok_0) == Some(inner));
    assert(read_token(inner, document[6]->Ok_0)->0 =~= found);
    assert(read_token(found, document[7]->Ok_0) == Some(found));
    assert(read_token(found, document[8]->Ok_0)->0 =~= left);
    assert(read_token(left, document[9]->Ok_0) == Some(left));
    assert(read_token(left, document[10]->Ok_0)->0 =~= done);
    assert(read_token(done, document[11]->Ok_0) == Some(done));
    assert(read_token(done, document[12]->Ok_0) == Some(done));
    assert(document.skip(0) =~= document);
    assert(document.skip(13)[0] == document[13]);
    assert(read_from(document.skip(13), done) == Some(seq![value]));
    lemma_read_one(document, 12, done, done);
    lemma_read_one(document, 11, done, done);
    lemma_read_one(document, 10, left, done);
    lemma_read_one(document, 9, left, left);
    lemma_read_one(document, 8, found, left);
    lemma_read_one(document, 7, found, found);
    lemma_read_one(document, 6, inner, found);
    lemma_read_one(document, 5, inner, inner);
    lemma_read_one(document, 4, outer, inner);
    lemma_read_one(document, 3, outer, outer);
    lemma_read_one(document, 2, nothing, outer);
    lemma_read_one(document, 1, nothing, nothing);
    lemma_read_one(document, 0, nothing, nothing);
}

proof fn lemma_read_one(document: DocumentModel, at: int, before: ReadModel, after: ReadModel)
    requires
        0 <= at < document.len(),
        document[at] is Ok,
        document[at]->Ok_0.kind != XmlKind::Eof,
        read_token(before, document[at]->Ok_0) == Some(after),
    ensures
        read_from(document.skip(at), before) == read_from(document.skip(at + 1), after),
{
    assert(document.skip(at)[0] == document[at]);
    assert(document.skip(at).drop_first() =~= document.skip(at + 1));
}

/// Every rating that a reader finds in an updated document, seen as it was written,
/// is the digits of the number that was written.
pub proof fn law_written_ratings_are_the_number(
    xml: Seq<char>,
    rating: u8,
    updated: Seq<char>,
    i: int,
)
    requires
        updated_bytes(xml, rating) is Ok,
        sees_update(xml, rating, updated),
    ensures
        rating_texts_of(updated) matches Some(texts) && texts.len() > 0 && (0 <= i < texts.len()
            ==> exists|digits: Seq<char>|
            #![auto]
            texts[i] == vstd::utf8::encode_utf8(digits) && writes_number(digits, rating as int)),
{
    law_written_rating_is_read_back(xml, rating, updated);
    law_decimal_digits_read_as_the_number(rating as nat, 0);
    assert(writes_number(decimal(rating as nat), rating as int));
}

} // verus!
