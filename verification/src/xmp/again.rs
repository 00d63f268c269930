//! Writing a rating that a document already holds.
//!
//! The laws here say that an update with the same rating changes no byte. As with
//! reading back, they take as given that an XML reader sees the tokens that were
//! written.

use vstd::prelude::*;

use crate::text::{bytes_of, lemma_ascii_bytes};
use crate::xmp::document::{
    attributes_of, document_of, is_description, is_rating_attribute, is_rating_element, name_len_of,
    name_of, xmp_namespace, AttributesModel, DocumentModel, ScopeModel, TokenModel, XmlKind,
};
use crate::xmp::read::{in_description, tag_rating};
use crate::xmp::readback::{
    adds_cleanly, attributes_alike, injected_attributes, injected_content,
    injected_scope, is_scope, lemma_added_names, lemma_added_rating_is_read,
    lemma_requoted_without_quotes, lemma_rewrite_ends, lemma_rewritten_tag_keeps_its_name,
    lemma_seen_is_written, lemma_target_is_seen, pieces_of, rated_attribute, rated_attributes,
    rewritten_end, seen, seen_after, seen_from, sees, sees_spliced, sees_spliced_token, sees_token,
    sees_update, spliced_attributes, tag_reads_back, tags_match, tags_read_back, updated_tokens,
};
use crate::xmp::rewrite::{
    finished, in_rating_element, injected, requoted, rewrite_from, rewrite_nothing, rewrite_token,
    rewrite_update, rewritten_tag, tag_content, target_of, with_attribute, RewriteModel,
};
use crate::xmp::splice::{
    attribute_update, content_at, rating_bytes, scan_from, scan_nothing, scan_token, spliced,
    stands_at, tag_span, SpanModel, SpliceModel,
};
use crate::xmp::updated_bytes;

verus! {

// ---------------------------------------------------------------------------
// Splicing the same value
// ---------------------------------------------------------------------------

/// Whether every rating attribute of a tag holds a rating, where the tag is a
/// description.
pub open spec fn tag_holds(token: TokenModel, rating: u8) -> bool {
    let attributes = attributes_of(token.content, name_len_of(token.content));
    is_description(token.scope, name_of(token.content)) ==> forall|i: int|
        0 <= i < attributes.len() ==> match #[trigger] attributes[i] {
            Ok((key, value)) => is_rating_attribute(token.scope, key) ==> value == rating_bytes(
                rating,
            ),
            Err(_) => true,
        }
}

/// Whether the rating attributes of a document hold one rating.
pub open spec fn holds_only(document: DocumentModel, rating: u8) -> bool {
    forall|i: int|
        0 <= i < document.len() ==> match #[trigger] document[i] {
            Ok(token) => (token.kind == XmlKind::Start || token.kind == XmlKind::Empty)
                ==> tag_holds(token, rating),
            Err(_) => true,
        }
}

/// Whether a value stands in each span.
spec fn spans_hold(doc: Seq<u8>, spans: Seq<SpanModel>, value: Seq<u8>) -> bool {
    forall|i: int|
        0 <= i < spans.len() ==> 0 <= (#[trigger] spans[i]).0 <= spans[i].1 <= doc.len()
            && doc.subrange(spans[i].0, spans[i].1) == value
}

proof fn lemma_tag_span_holds(
    scope: ScopeModel,
    content: Seq<u8>,
    attributes: AttributesModel,
    value: Seq<u8>,
)
    requires
        tag_span(scope, content, attributes) is Ok,
        forall|i: int|
            0 <= i < attributes.len() ==> match #[trigger] attributes[i] {
                Ok((key, held)) => is_rating_attribute(scope, key) ==> held == value,
                Err(_) => true,
            },
    ensures
        tag_span(scope, content, attributes)->Ok_0.rating matches Some((start, end)) ==> 0 <= start
            <= end <= content.len() && content.subrange(start, end) == value,
    decreases attributes.len(),
{
    if attributes.len() > 0 {
        let before = attributes.drop_last();
        assert forall|i: int| 0 <= i < before.len() implies match #[trigger] before[i] {
            Ok((key, held)) => is_rating_attribute(scope, key) ==> held == value,
            Err(_) => true,
        } by {
            assert(before[i] == attributes[i]);
        }
        lemma_tag_span_holds(scope, content, before, value);
        let last = attributes[attributes.len() - 1];
        assert(last == attributes.last());
    }
}

proof fn lemma_scan_holds(
    doc: Seq<u8>,
    tokens: DocumentModel,
    model: SpliceModel,
    rating: u8,
)
    requires
        scan_from(doc, tokens, model) is Ok,
        holds_only(tokens, rating),
        spans_hold(doc, model.spans, rating_bytes(rating)),
    ensures
        spans_hold(doc, scan_from(doc, tokens, model)->Ok_0.spans, rating_bytes(rating)),
    decreases tokens.len(),
{
    let token = tokens[0]->Ok_0;
    if token.kind != XmlKind::Eof {
        let next = scan_token(doc, model, token)->Ok_0;
        let rest = tokens.drop_first();
        let value = rating_bytes(rating);
        assert(holds_only(rest, rating)) by {
            assert forall|i: int| 0 <= i < rest.len() implies match #[trigger] rest[i] {
                Ok(token) => (token.kind == XmlKind::Start || token.kind == XmlKind::Empty)
                    ==> tag_holds(token, rating),
                Err(_) => true,
            } by {
                assert(rest[i] == tokens[i + 1]);
            }
        }
        if token.kind == XmlKind::Start || token.kind == XmlKind::Empty {
            let attributes = attributes_of(token.content, name_len_of(token.content));
            if is_description(token.scope, name_of(token.content)) {
                lemma_tag_span_holds(token.scope, token.content, attributes, value);
                let tag = tag_span(token.scope, token.content, attributes)->Ok_0;
                if let Some((start, end)) = tag.rating {
                    let at = content_at(doc, token)->Some_0;
                    assert(stands_at(doc, at, token.content));
                    assert(doc.subrange(at + start, at + end) =~= doc.subrange(
                        at,
                        at + token.content.len(),
                    ).subrange(start, end));
                }
            }
        }
        lemma_scan_holds(doc, rest, next, rating);
    }
}

proof fn lemma_splice_of_held_value(
    doc: Seq<u8>,
    spans: Seq<SpanModel>,
    value: Seq<u8>,
    cursor: int,
)
    requires
        spliced(doc, spans, value, cursor) is Some,
        spans_hold(doc, spans, value),
        0 <= cursor <= doc.len(),
    ensures
        spliced(doc, spans, value, cursor) == Some(doc.skip(cursor)),
    decreases spans.len(),
{
    if spans.len() > 0 {
        let rest = spans.drop_first();
        let span = spans[0];
        assert(spans_hold(doc, rest, value)) by {
            assert forall|i: int| 0 <= i < rest.len() implies 0 <= (#[trigger] rest[i]).0
                <= rest[i].1 <= doc.len() && doc.subrange(rest[i].0, rest[i].1) == value by {
                assert(rest[i] == spans[i + 1]);
            }
        }
        lemma_splice_of_held_value(doc, rest, value, span.1);
        assert(doc.subrange(cursor, span.0) + doc.subrange(span.0, span.1) + doc.skip(span.1)
            =~= doc.skip(cursor));
    }
}

/// Splicing a rating into a document whose rating attributes hold it already
/// changes no byte.
pub proof fn law_splicing_the_same_rating_changes_no_byte(xml: Seq<char>, rating: u8)
    requires
        attribute_update(xml, rating) matches Ok(Some(_)),
        holds_only(document_of(xml), rating),
    ensures
        attribute_update(xml, rating) == Ok::<Option<Seq<u8>>, Seq<char>>(
            Some(vstd::utf8::encode_utf8(xml)),
        ),
{
    let doc = vstd::utf8::encode_utf8(xml);
    let found = scan_from(doc, document_of(xml), scan_nothing())->Ok_0;
    lemma_scan_holds(doc, document_of(xml), scan_nothing(), rating);
    lemma_splice_of_held_value(doc, found.spans, rating_bytes(rating), 0);
    assert(doc.skip(0) =~= doc);
}

proof fn lemma_spliced_holds(before: DocumentModel, document: DocumentModel, rating: u8)
    requires
        sees_spliced(document, before, rating),
    ensures
        holds_only(document, rating),
{
    assert forall|i: int| 0 <= i < document.len() implies match #[trigger] document[i] {
        Ok(token) => (token.kind == XmlKind::Start || token.kind == XmlKind::Empty) ==> tag_holds(
            token,
            rating,
        ),
        Err(_) => true,
    } by {
        match before[i] {
            Ok(token) => {
                let read = document[i]->Ok_0;
                let attributes = attributes_of(token.content, name_len_of(token.content));
                let shown = attributes_of(read.content, name_len_of(read.content));
                if read.kind == XmlKind::Start || read.kind == XmlKind::Empty {
                    if is_description(read.scope, name_of(read.content)) {
                        assert forall|j: int| 0 <= j < shown.len() implies match
                            #[trigger] shown[j] {
                            Ok((key, value)) => is_rating_attribute(read.scope, key) ==> value
                                == rating_bytes(rating),
                            Err(_) => true,
                        } by {
                            assert(attributes[j] == attributes[j]);
                        }
                    }
                }
            },
            Err(_) => {},
        }
    }
}

// ---------------------------------------------------------------------------
// Tags written once more
// ---------------------------------------------------------------------------

proof fn lemma_requoted_has_no_quotes(value: Seq<u8>)
    ensures
        !requoted(value).contains(0x22),
    decreases value.len(),
{
    let quoted = requoted(value);
    if value.len() > 0 {
        let before = requoted(value.drop_last());
        lemma_requoted_has_no_quotes(value.drop_last());
        reveal_strlit("&quot;");
        lemma_ascii_bytes("&quot;"@);
        assert forall|i: int| 0 <= i < quoted.len() implies #[trigger] quoted[i] != 0x22 by {
            if i < before.len() {
                assert(quoted[i] == before[i]);
                assert(before.contains(before[i]));
            } else if value.last() == 0x22 {
                assert(quoted[i] == bytes_of("&quot;")[i - before.len()]);
            }
        }
    }
}

proof fn lemma_requoted_twice(value: Seq<u8>)
    ensures
        requoted(requoted(value)) == requoted(value),
{
    lemma_requoted_has_no_quotes(value);
    lemma_requoted_without_quotes(requoted(value));
}

/// A tag that was rewritten is rewritten to itself.
proof fn lemma_rewritten_again(
    scope: ScopeModel,
    content: Seq<u8>,
    again: Seq<u8>,
    attributes: AttributesModel,
    rating: u8,
)
    requires
        rewritten_tag(scope, content, attributes, rating) is Ok,
        name_of(again) == name_of(content),
    ensures
        rewritten_tag(scope, again, rated_attributes(scope, attributes, rating), rating)
            == rewritten_tag(scope, content, attributes, rating),
    decreases attributes.len(),
{
    let rated = rated_attributes(scope, attributes, rating);
    if attributes.len() > 0 {
        lemma_rewritten_again(scope, content, again, attributes.drop_last(), rating);
        assert(rated.drop_last() =~= rated_attributes(scope, attributes.drop_last(), rating));
        assert(rated.last() == rated_attribute(scope, attributes.last(), rating));
        lemma_requoted_twice(attributes.last()->Ok_0.1);
    }
}

/// What is written for a tag is written for it again.
proof fn lemma_tag_content_again(token: TokenModel, kind: XmlKind, rating: u8)
    requires
        tag_reads_back(token, rating),
        tag_content(token, rating) is Ok,
    ensures
        ({
            let content = tag_content(token, rating)->Ok_0.0;
            &&& name_of(content) == name_of(token.content)
            &&& tag_content(seen((kind, content), token.scope), rating) == tag_content(
                token,
                rating,
            )
            &&& tag_holds(seen((kind, content), token.scope), rating)
        }),
{
    let attributes = attributes_of(token.content, name_len_of(token.content));
    let content = tag_content(token, rating)->Ok_0.0;
    if is_description(token.scope, name_of(token.content)) {
        lemma_rewritten_tag_keeps_its_name(token.scope, token.content, attributes, rating);
        lemma_rewritten_again(token.scope, token.content, content, attributes, rating);
        let shown = attributes_of(content, name_len_of(content));
        assert forall|i: int| 0 <= i < shown.len() implies match #[trigger] shown[i] {
            Ok((key, value)) => is_rating_attribute(token.scope, key) ==> value == rating_bytes(
                rating,
            ),
            Err(_) => true,
        } by {
            assert(shown[i] == rated_attribute(token.scope, attributes[i], rating));
        }
    }
}

// ---------------------------------------------------------------------------
// Two rewrites side by side
// ---------------------------------------------------------------------------

/// The state of a rewrite after some tokens.
pub open spec fn rewrite_all(tokens: Seq<TokenModel>, model: RewriteModel, rating: u8) -> Option<
    RewriteModel,
>
    decreases tokens.len(),
{
    if tokens.len() == 0 {
        Some(model)
    } else {
        match rewrite_token(model, tokens[0], rating) {
            Ok(next) => rewrite_all(tokens.drop_first(), next, rating),
            Err(_) => None,
        }
    }
}

proof fn lemma_rewrite_all_concat(
    a: Seq<TokenModel>,
    b: Seq<TokenModel>,
    model: RewriteModel,
    rating: u8,
)
    ensures
        rewrite_all(a + b, model, rating) == match rewrite_all(a, model, rating) {
            Some(next) => rewrite_all(b, next, rating),
            None => None,
        },
    decreases a.len(),
{
    if a.len() == 0 {
        assert(a + b =~= b);
    } else {
        assert((a + b)[0] == a[0]);
        assert((a + b).drop_first() =~= a.drop_first() + b);
        match rewrite_token(model, a[0], rating) {
            Ok(next) => lemma_rewrite_all_concat(a.drop_first(), b, next, rating),
            Err(_) => {},
        }
    }
}

/// Whether a rewrite of what a rewrite wrote so far is where that one is.
spec fn in_step(
    first: RewriteModel,
    second: RewriteModel,
    open: Seq<(Seq<u8>, ScopeModel)>,
) -> bool {
    &&& second.open == first.open
    &&& second.pieces == first.pieces
    &&& second.wrote == first.wrote
    &&& open.len() == first.open.len()
    &&& second.ratings.len() == first.ratings.len()
    &&& forall|j: int|
        0 <= j < first.ratings.len() ==> {
            let depth = (#[trigger] first.ratings[j]).0;
            &&& second.ratings[j] == (depth, false)
            &&& 0 <= depth < open.len()
            &&& is_rating_element(open[depth].1, open[depth].0)
        }
    &&& forall|i: int, j: int|
        0 <= i < j < first.ratings.len() ==> (#[trigger] first.ratings[i]).0 < (
        #[trigger] first.ratings[j]).0
}

proof fn lemma_tag_in_step(
    first: RewriteModel,
    second: RewriteModel,
    open: Seq<(Seq<u8>, ScopeModel)>,
    token: TokenModel,
    rating: u8,
) -> (next: RewriteModel)
    requires
        token.kind == XmlKind::Start || token.kind == XmlKind::Empty,
        in_step(first, second, open),
        tag_reads_back(token, rating),
        rewrite_token(first, token, rating) is Ok,
    ensures
        rewrite_all(seen_after(first, token, rating), second, rating) == Some(next),
        in_step(
            rewrite_token(first, token, rating)->Ok_0,
            next,
            if token.kind == XmlKind::Start {
                open.push((name_of(token.content), token.scope))
            } else {
                open
            },
        ),
{
    let (content, found) = tag_content(token, rating)->Ok_0;
    let after = rewrite_token(first, token, rating)->Ok_0;
    let name = name_of(token.content);
    let element = in_description(first.open) && is_rating_element(token.scope, name);
    lemma_tag_content_again(token, token.kind, rating);
    lemma_tag_content_again(token, XmlKind::Start, rating);
    let shown = seen_after(first, token, rating);
    if token.kind == XmlKind::Empty && element {
        let opening = seen((XmlKind::Start, content), token.scope);
        let text = seen((XmlKind::Text, rating_bytes(rating)), token.scope);
        let closing = seen((XmlKind::End, name_of(content)), token.scope);
        assert(shown =~= seq![opening, text, closing]);
        let opened = rewrite_token(second, opening, rating)->Ok_0;
        assert(opened.ratings == second.ratings.push((second.open.len() as int, false)));
        assert(opened.pieces == second.pieces.push((XmlKind::Start, content)));
        assert(in_rating_element(opened));
        assert(rewrite_token(opened, text, rating) == Ok::<RewriteModel, Seq<char>>(opened));
        let next = rewrite_token(opened, closing, rating)->Ok_0;
        assert(next.open =~= second.open);
        assert(next.ratings =~= second.ratings);
        assert(next.pieces =~= after.pieces);
        assert(shown.drop_first() =~= seq![text, closing]);
        assert(shown.drop_first().drop_first() =~= seq![closing]);
        assert(shown.drop_first().drop_first().drop_first() =~= seq![]);
        reveal_with_fuel(rewrite_all, 4);
        next
    } else {
        let only = seen((token.kind, content), token.scope);
        assert(shown =~= seq![only]);
        let next = rewrite_token(second, only, rating)->Ok_0;
        assert(rewrite_token(second, only, rating) == Ok::<RewriteModel, Seq<char>>(next));
        assert(shown.drop_first() =~= seq![]);
        reveal_with_fuel(rewrite_all, 2);
        next
    }
}

proof fn lemma_end_in_step(
    first: RewriteModel,
    second: RewriteModel,
    open: Seq<(Seq<u8>, ScopeModel)>,
    token: TokenModel,
    rating: u8,
) -> (next: RewriteModel)
    requires
        token.kind == XmlKind::End,
        open.len() > 0,
        open.last() == (token.content, token.scope),
        in_step(first, second, open),
        rewrite_token(first, token, rating) is Ok,
    ensures
        rewrite_all(seen_after(first, token, rating), second, rating) == Some(next),
        in_step(rewrite_token(first, token, rating)->Ok_0, next, open.drop_last()),
{
    let shown = seen_after(first, token, rating);
    let after = rewrite_token(first, token, rating)->Ok_0;
    let last = seen((XmlKind::End, token.content), token.scope);
    if first.ratings.len() > 0 && first.ratings.last().0 == first.open.len() - 1 {
        let innermost = first.ratings[first.ratings.len() - 1];
        assert(second.ratings[first.ratings.len() - 1] == (innermost.0, false));
        assert(is_rating_element(token.scope, token.content));
        let kind = if innermost.1 {
            XmlKind::CData
        } else {
            XmlKind::Text
        };
        let value = seen((kind, rating_bytes(rating)), token.scope);
        assert(shown =~= seq![value, last]);
        assert(in_rating_element(second));
        let filled = rewrite_token(second, value, rating)->Ok_0;
        assert(filled.ratings.last() == (innermost.0, innermost.1));
        let next = rewrite_token(filled, last, rating)->Ok_0;
        assert(rewrite_token(filled, last, rating) == Ok::<RewriteModel, Seq<char>>(next));
        assert(next.ratings =~= second.ratings.drop_last());
        assert(next.pieces =~= after.pieces);
        assert(shown.drop_first() =~= seq![last]);
        assert(shown.drop_first().drop_first() =~= seq![]);
        reveal_with_fuel(rewrite_all, 3);
        next
    } else {
        assert(shown =~= seq![last]);
        if first.ratings.len() > 0 {
            assert(second.ratings[first.ratings.len() - 1].0 == first.ratings.last().0);
        }
        let next = rewrite_token(second, last, rating)->Ok_0;
        assert(rewrite_token(second, last, rating) == Ok::<RewriteModel, Seq<char>>(next));
        assert(shown.drop_first() =~= seq![]);
        reveal_with_fuel(rewrite_all, 2);
        next
    }
}

proof fn lemma_other_in_step(
    first: RewriteModel,
    second: RewriteModel,
    open: Seq<(Seq<u8>, ScopeModel)>,
    token: TokenModel,
    rating: u8,
) -> (next: RewriteModel)
    requires
        token.kind != XmlKind::Start,
        token.kind != XmlKind::Empty,
        token.kind != XmlKind::End,
        token.kind != XmlKind::Eof,
        in_step(first, second, open),
    ensures
        rewrite_token(first, token, rating) is Ok,
        rewrite_all(seen_after(first, token, rating), second, rating) == Some(next),
        in_step(rewrite_token(first, token, rating)->Ok_0, next, open),
{
    let shown = seen_after(first, token, rating);
    if first.ratings.len() > 0 {
        assert(second.ratings[first.ratings.len() - 1].0 == first.ratings.last().0);
    }
    assert(in_rating_element(second) == in_rating_element(first));
    if in_rating_element(first) && (token.kind == XmlKind::Text || token.kind == XmlKind::CData) {
        assert(shown =~= seq![]);
        let after = rewrite_token(first, token, rating)->Ok_0;
        assert forall|j: int| 0 <= j < after.ratings.len() implies (#[trigger] after.ratings[j]).0
            == first.ratings[j].0 by {}
        second
    } else {
        let only = seen((token.kind, token.content), token.scope);
        assert(shown =~= seq![only]);
        let next = rewrite_token(second, only, rating)->Ok_0;
        assert(shown.drop_first() =~= seq![]);
        reveal_with_fuel(rewrite_all, 2);
        next
    }
}

/// A rewrite of everything that was written keeps in step to the end, and
/// writes the same.
proof fn lemma_keeps_in_step(
    tokens: DocumentModel,
    first: RewriteModel,
    second: RewriteModel,
    open: Seq<(Seq<u8>, ScopeModel)>,
    rating: u8,
) -> (end: (RewriteModel, Seq<(Seq<u8>, ScopeModel)>))
    requires
        rewritten_end(tokens, first, rating) is Some,
        in_step(first, second, open),
        tags_match(tokens, open),
        tags_read_back(tokens, rating),
    ensures
        rewrite_all(seen_from(tokens, first, rating), second, rating) == Some(end.0),
        in_step(rewritten_end(tokens, first, rating)->Some_0, end.0, end.1),
    decreases tokens.len(),
{
    let token = tokens[0]->Ok_0;
    if token.kind == XmlKind::Eof {
        (second, open)
    } else {
        let after = rewrite_token(first, token, rating)->Ok_0;
        let rest = tokens.drop_first();
        lemma_rest_reads_back(tokens, rating);
        let (next, opened) = if token.kind == XmlKind::Start {
            (
                lemma_tag_in_step(first, second, open, token, rating),
                open.push((name_of(token.content), token.scope)),
            )
        } else if token.kind == XmlKind::Empty {
            (lemma_tag_in_step(first, second, open, token, rating), open)
        } else if token.kind == XmlKind::End {
            (lemma_end_in_step(first, second, open, token, rating), open.drop_last())
        } else {
            (lemma_other_in_step(first, second, open, token, rating), open)
        };
        let end = lemma_keeps_in_step(rest, after, next, opened, rating);
        lemma_rewrite_all_concat(
            seen_after(first, token, rating),
            seen_from(rest, after, rating),
            second,
            rating,
        );
        end
    }
}

proof fn lemma_rest_reads_back(tokens: DocumentModel, rating: u8)
    requires
        tags_read_back(tokens, rating),
        tokens.len() > 0,
    ensures
        tags_read_back(tokens.drop_first(), rating),
{
    let rest = tokens.drop_first();
    assert forall|i: int| 0 <= i < rest.len() implies match #[trigger] rest[i] {
        Ok(token) => (token.kind == XmlKind::Start || token.kind == XmlKind::Empty)
            ==> tag_reads_back(token, rating),
        Err(_) => true,
    } by {
        assert(rest[i] == tokens[i + 1]);
    }
}

/// Whether two rewrites are at the same place, whatever they wrote before.
spec fn at_one_place(a: RewriteModel, b: RewriteModel) -> bool {
    a.open == b.open && a.ratings == b.ratings
}

/// Two rewrites at the same place write the same for tokens that mean the same.
proof fn lemma_same_step(
    a: RewriteModel,
    b: RewriteModel,
    read: TokenModel,
    written: TokenModel,
    rating: u8,
)
    requires
        at_one_place(a, b),
        sees_token(read, written),
        read.kind != XmlKind::Eof,
        rewrite_token(b, written, rating) is Ok,
    ensures
        rewrite_token(a, read, rating) is Ok,
        ({
            let x = rewrite_token(a, read, rating)->Ok_0;
            let y = rewrite_token(b, written, rating)->Ok_0;
            &&& at_one_place(x, y)
            &&& x.pieces.len() - a.pieces.len() == y.pieces.len() - b.pieces.len()
            &&& b.pieces.len() <= y.pieces.len()
            &&& x.pieces == a.pieces + y.pieces.skip(b.pieces.len() as int)
            &&& a.wrote ==> x.wrote
            &&& b.wrote == a.wrote ==> y.wrote == x.wrote
        }),
{
    if read.kind == XmlKind::Start || read.kind == XmlKind::Empty {
        let attributes = attributes_of(written.content, name_len_of(written.content));
        lemma_rewritten_alike(read.scope, written.scope, written.content, attributes, rating);
        assert(tag_content(read, rating) == tag_content(written, rating));
    }
    let x = rewrite_token(a, read, rating)->Ok_0;
    let y = rewrite_token(b, written, rating)->Ok_0;
    assert(x.pieces =~= a.pieces + y.pieces.skip(b.pieces.len() as int));
}

proof fn lemma_rewritten_alike(
    a: ScopeModel,
    b: ScopeModel,
    content: Seq<u8>,
    attributes: AttributesModel,
    rating: u8,
)
    requires
        attributes_alike(a, b, attributes),
    ensures
        rewritten_tag(a, content, attributes, rating) == rewritten_tag(
            b,
            content,
            attributes,
            rating,
        ),
    decreases attributes.len(),
{
    if attributes.len() > 0 {
        let before = attributes.drop_last();
        assert(attributes_alike(a, b, before)) by {
            assert forall|i: int| 0 <= i < before.len() implies match #[trigger] before[i] {
                Ok((key, _)) => is_rating_attribute(a, key) == is_rating_attribute(b, key),
                Err(_) => true,
            } by {
                assert(before[i] == attributes[i]);
            }
        }
        lemma_rewritten_alike(a, b, content, before, rating);
        assert(attributes[attributes.len() - 1] == attributes.last());
    }
}

/// Rewriting tokens that mean the same writes the same behind what was written
/// before.
proof fn lemma_same_run(
    a: RewriteModel,
    b: RewriteModel,
    read: Seq<TokenModel>,
    written: Seq<TokenModel>,
    rating: u8,
)
    requires
        at_one_place(a, b),
        read.len() == written.len(),
        forall|i: int|
            0 <= i < read.len() ==> (#[trigger] read[i]).kind != XmlKind::Eof && sees_token(
                read[i],
                written[i],
            ),
        rewrite_all(written, b, rating) is Some,
    ensures
        rewrite_all(read, a, rating) is Some,
        ({
            let x = rewrite_all(read, a, rating)->Some_0;
            let y = rewrite_all(written, b, rating)->Some_0;
            &&& at_one_place(x, y)
            &&& b.pieces.len() <= y.pieces.len()
            &&& x.pieces == a.pieces + y.pieces.skip(b.pieces.len() as int)
            &&& a.wrote ==> x.wrote
            &&& b.wrote == a.wrote ==> y.wrote == x.wrote
        }),
    decreases read.len(),
{
    if read.len() == 0 {
        assert(a.pieces + b.pieces.skip(b.pieces.len() as int) =~= a.pieces);
    } else {
        assert(sees_token(read[0], written[0]));
        lemma_same_step(a, b, read[0], written[0], rating);
        let p = rewrite_token(a, read[0], rating)->Ok_0;
        let q = rewrite_token(b, written[0], rating)->Ok_0;
        let (later, left) = (read.drop_first(), written.drop_first());
        assert forall|i: int| 0 <= i < later.len() implies (#[trigger] later[i]).kind
            != XmlKind::Eof && sees_token(later[i], left[i]) by {
            assert(later[i] == read[i + 1]);
        }
        lemma_same_run(p, q, later, left, rating);
        let x = rewrite_all(read, a, rating)->Some_0;
        let y = rewrite_all(written, b, rating)->Some_0;
        assert(x.pieces =~= a.pieces + y.pieces.skip(b.pieces.len() as int)) by {
            lemma_kept_in_front(left, q, rating);
            assert(q.pieces =~= y.pieces.take(q.pieces.len() as int));
        }
    }
}

/// What was written stays in front.
proof fn lemma_kept_in_front(rest: Seq<TokenModel>, next: RewriteModel, rating: u8)
    requires
        rewrite_all(rest, next, rating) is Some,
    ensures
        ({
            let end = rewrite_all(rest, next, rating)->Some_0;
            &&& next.pieces.len() <= end.pieces.len()
            &&& end.pieces.take(next.pieces.len() as int) == next.pieces
        }),
    decreases rest.len(),
{
    if rest.len() > 0 {
        let after = rewrite_token(next, rest[0], rating)->Ok_0;
        lemma_kept_in_front(rest.drop_first(), after, rating);
        let end = rewrite_all(rest, next, rating)->Some_0;
        assert(end.pieces.take(next.pieces.len() as int) =~= next.pieces) by {
            assert forall|i: int| 0 <= i < next.pieces.len() implies end.pieces[i]
                == next.pieces[i] by {
                assert(end.pieces.take(after.pieces.len() as int)[i] == after.pieces[i]);
            }
        }
    } else {
        assert(next.pieces.take(next.pieces.len() as int) =~= next.pieces);
    }
}

// ---------------------------------------------------------------------------
// A tag that a rating was added to
// ---------------------------------------------------------------------------

proof fn lemma_namespace_is_unquoted()
    ensures
        requoted(xmp_namespace()) == xmp_namespace(),
{
    reveal_strlit("http://ns.adobe.com/xap/1.0/");
    lemma_ascii_bytes("http://ns.adobe.com/xap/1.0/"@);
    assert(!xmp_namespace().contains(0x22)) by {
        assert forall|i: int| 0 <= i < xmp_namespace().len() implies #[trigger] xmp_namespace()[i]
            != 0x22 by {}
    }
    lemma_requoted_without_quotes(xmp_namespace());
}

proof fn lemma_rewritten_by_name(
    scope: ScopeModel,
    a: Seq<u8>,
    b: Seq<u8>,
    attributes: AttributesModel,
    rating: u8,
)
    requires
        name_of(a) == name_of(b),
    ensures
        rewritten_tag(scope, a, attributes, rating) == rewritten_tag(scope, b, attributes, rating),
    decreases attributes.len(),
{
    if attributes.len() > 0 {
        lemma_rewritten_by_name(scope, a, b, attributes.drop_last(), rating);
    }
}

/// The tag that a rating was added to is rewritten to itself.
proof fn lemma_added_again(tag: TokenModel, position: int, rating: u8)
    requires
        is_scope(tag.scope),
        is_description(tag.scope, name_of(tag.content)),
        tag_content(tag, rating) == Ok::<(Seq<u8>, bool), Seq<char>>((tag.content, false)),
        tag_holds(tag, rating),
        ({
            let target = target_of(tag.scope, position);
            let before = attributes_of(tag.content, name_len_of(tag.content));
            let content = injected_content(tag.content, target, rating);
            &&& tag_rating(tag.scope, before) == Some(None::<Seq<u8>>)
            &&& attributes_alike(injected_scope(tag.scope, target), tag.scope, before)
            &&& attributes_of(content, name_len_of(content)) == injected_attributes(
                before,
                target,
                rating,
            )
        }),
    ensures
        ({
            let target = target_of(tag.scope, position);
            let added = TokenModel {
                content: injected_content(tag.content, target, rating),
                scope: injected_scope(tag.scope, target),
                ..tag
            };
            &&& name_of(added.content) == name_of(tag.content)
            &&& is_description(added.scope, name_of(tag.content))
            &&& !is_rating_element(added.scope, name_of(tag.content))
            &&& !is_rating_element(tag.scope, name_of(tag.content))
            &&& tag_content(added, rating) == Ok::<(Seq<u8>, bool), Seq<char>>(
                (added.content, true),
            )
            &&& tag_holds(added, rating)
        }),
{
    let target = target_of(tag.scope, position);
    let scope = injected_scope(tag.scope, target);
    let before = attributes_of(tag.content, name_len_of(tag.content));
    let content = injected_content(tag.content, target, rating);
    lemma_added_rating_is_read(tag, position, rating);
    lemma_added_names(tag.scope, position);
    lemma_namespace_is_unquoted();
    lemma_rewritten_alike(scope, tag.scope, content, before, rating);
    lemma_rewritten_by_name(tag.scope, content, tag.content, before, rating);
    let rated = before.push(Ok((target.rating_name, rating_bytes(rating))));
    assert(rated.drop_last() =~= before);
    assert(rated.last() == Ok::<(Seq<u8>, Seq<u8>), Seq<char>>(
        (target.rating_name, rating_bytes(rating)),
    ));
    let plain = rewritten_tag(scope, content, before, rating)->Ok_0.0;
    assert(plain == tag.content);
    let once = with_attribute(tag.content, target.rating_name, rating_bytes(rating));
    assert(rewritten_tag(scope, content, rated, rating) == Ok::<(Seq<u8>, bool), Seq<char>>(
        (once, true),
    ));
    let all = injected_attributes(before, target, rating);
    if let Some(namespace) = target.namespace_name {
        assert(all.drop_last() =~= rated);
        assert(all.last() == Ok::<(Seq<u8>, Seq<u8>), Seq<char>>((namespace, xmp_namespace())));
    }
    assert(rewritten_tag(scope, content, all, rating) == Ok::<(Seq<u8>, bool), Seq<char>>(
        (content, true),
    ));
    assert forall|i: int| 0 <= i < all.len() implies match #[trigger] all[i] {
        Ok((key, value)) => is_rating_attribute(scope, key) ==> value == rating_bytes(rating),
        Err(_) => true,
    } by {
        if i < before.len() {
            assert(all[i] == before[i]);
        }
    }
}

/// A rewrite that writes no rating copies token by token.
proof fn lemma_one_piece_each(tokens: Seq<TokenModel>, model: RewriteModel, rating: u8)
    requires
        rewrite_all(tokens, model, rating) is Some,
        !rewrite_all(tokens, model, rating)->Some_0.wrote,
        model.ratings.len() == 0,
    ensures
        ({
            let end = rewrite_all(tokens, model, rating)->Some_0;
            &&& !model.wrote
            &&& end.ratings.len() == 0
            &&& end.pieces.len() == model.pieces.len() + tokens.len()
        }),
    decreases tokens.len(),
{
    if tokens.len() > 0 {
        let next = rewrite_token(model, tokens[0], rating)->Ok_0;
        if next.wrote {
            lemma_wrote_stays(tokens.drop_first(), next, rating);
        }
        assert(next.ratings.len() == 0);
        lemma_one_piece_each(tokens.drop_first(), next, rating);
    }
}

proof fn lemma_wrote_stays(tokens: Seq<TokenModel>, model: RewriteModel, rating: u8)
    requires
        rewrite_all(tokens, model, rating) is Some,
        model.wrote,
    ensures
        rewrite_all(tokens, model, rating)->Some_0.wrote,
    decreases tokens.len(),
{
    if tokens.len() > 0 {
        let next = rewrite_token(model, tokens[0], rating)->Ok_0;
        lemma_wrote_stays(tokens.drop_first(), next, rating);
    }
}

/// Rewriting tokens of which one tag was given the rating writes them as they
/// are.
proof fn lemma_rewrite_with_added(
    shown: Seq<TokenModel>,
    at: int,
    added: TokenModel,
    rating: u8,
)
    requires
        0 <= at < shown.len(),
        shown[at].kind == XmlKind::Start || shown[at].kind == XmlKind::Empty,
        added.kind == shown[at].kind,
        forall|i: int| 0 <= i < shown.len() ==> (#[trigger] shown[i]).kind != XmlKind::Eof,
        rewrite_all(shown, rewrite_nothing(), rating) matches Some(end) && !end.wrote && end.pieces
            == pieces_of(shown) && end.open.len() == 0,
        ({
            let tag = shown[at];
            &&& name_of(added.content) == name_of(tag.content)
            &&& is_description(tag.scope, name_of(tag.content))
            &&& is_description(added.scope, name_of(tag.content))
            &&& !is_rating_element(added.scope, name_of(tag.content))
            &&& !is_rating_element(tag.scope, name_of(tag.content))
            &&& tag_content(added, rating) == Ok::<(Seq<u8>, bool), Seq<char>>(
                (added.content, true),
            )
        }),
    ensures
        rewrite_all(shown.update(at, added), rewrite_nothing(), rating) matches Some(end)
            && end.wrote && end.pieces == pieces_of(shown.update(at, added)) && end.open.len() == 0,
{
    let tag = shown[at];
    let all = shown.update(at, added);
    let start = rewrite_nothing();
    let (a, b) = (shown.take(at), shown.skip(at + 1));
    assert(shown =~= a + (seq![tag] + b));
    assert(all =~= a + (seq![added] + b));
    lemma_rewrite_all_concat(a, seq![tag] + b, start, rating);
    lemma_rewrite_all_concat(a, seq![added] + b, start, rating);
    let before = rewrite_all(a, start, rating)->Some_0;
    assert((seq![tag] + b).drop_first() =~= b);
    assert((seq![added] + b).drop_first() =~= b);
    let passed = rewrite_token(before, tag, rating)->Ok_0;
    let rated = rewrite_token(before, added, rating)->Ok_0;
    let end = rewrite_all(b, passed, rating)->Some_0;
    if before.wrote {
        lemma_wrote_stays(b, passed, rating);
    }
    lemma_one_piece_each(a, start, rating);
    assert(before.pieces.len() == at);
    assert(rewrite_token(before, added, rating) == Ok::<RewriteModel, Seq<char>>(rated));
    assert(at_one_place(rated, passed));
    assert forall|i: int| 0 <= i < b.len() implies (#[trigger] b[i]).kind != XmlKind::Eof
        && sees_token(b[i], b[i]) by {
        assert(b[i] == shown[i + at + 1]);
    }
    lemma_same_run(rated, passed, b, b, rating);
    lemma_kept_in_front(b, passed, rating);
    let last = rewrite_all(b, rated, rating)->Some_0;
    let expected = pieces_of(all);
    assert(last.pieces =~= expected) by {
        lemma_one_piece_each(b, passed, rating);
        assert forall|i: int| 0 <= i < expected.len() implies last.pieces[i] == expected[i] by {
            if i < at {
                assert(last.pieces[i] == before.pieces[i]);
                assert(end.pieces.take(passed.pieces.len() as int)[i] == passed.pieces[i]);
                assert(end.pieces[i] == pieces_of(shown)[i]);
            } else if i > at {
                assert(last.pieces[i] == end.pieces[i]);
                assert(end.pieces[i] == pieces_of(shown)[i]);
            }
        }
    }
}

// ---------------------------------------------------------------------------
// Documents written once more
// ---------------------------------------------------------------------------

/// Rewriting a document is rewriting its tokens.
proof fn lemma_rewrite_document(
    document: DocumentModel,
    read: Seq<TokenModel>,
    model: RewriteModel,
    rating: u8,
)
    requires
        document.len() == read.len() + 1,
        document.last() matches Ok(end) && end.kind == XmlKind::Eof,
        forall|i: int|
            0 <= i < read.len() ==> #[trigger] document[i] == Ok::<TokenModel, Seq<char>>(read[i])
                && read[i].kind != XmlKind::Eof,
        rewrite_all(read, model, rating) is Some,
    ensures
        rewrite_from(document, model, rating) == finished(
            rewrite_all(read, model, rating)->Some_0,
            rating,
        ),
    decreases read.len(),
{
    if read.len() > 0 {
        assert(document[0] == Ok::<TokenModel, Seq<char>>(read[0]));
        let next = rewrite_token(model, read[0], rating)->Ok_0;
        let (rest, later) = (document.drop_first(), read.drop_first());
        assert(rest.last() == document.last());
        assert forall|i: int| 0 <= i < later.len() implies #[trigger] rest[i] == Ok::<
            TokenModel,
            Seq<char>,
        >(later[i]) && later[i].kind != XmlKind::Eof by {
            assert(rest[i] == document[i + 1]);
            assert(later[i] == read[i + 1]);
        }
        lemma_rewrite_document(rest, later, next, rating);
    }
}

/// The tags that a rewrite writes hold the rating.
proof fn lemma_seen_holds(tokens: DocumentModel, model: RewriteModel, rating: u8)
    requires
        rewritten_end(tokens, model, rating) is Some,
        tags_read_back(tokens, rating),
    ensures
        forall|i: int|
            0 <= i < seen_from(tokens, model, rating).len() ==> ((#[trigger] seen_from(
                tokens,
                model,
                rating,
            )[i]).kind == XmlKind::Start || seen_from(tokens, model, rating)[i].kind
                == XmlKind::Empty ==> tag_holds(seen_from(tokens, model, rating)[i], rating)),
    decreases tokens.len(),
{
    let token = tokens[0]->Ok_0;
    if token.kind != XmlKind::Eof {
        let next = rewrite_token(model, token, rating)->Ok_0;
        let rest = tokens.drop_first();
        lemma_rest_reads_back(tokens, rating);
        lemma_seen_holds(rest, next, rating);
        let first = seen_after(model, token, rating);
        let later = seen_from(rest, next, rating);
        if token.kind == XmlKind::Start || token.kind == XmlKind::Empty {
            lemma_tag_content_again(token, token.kind, rating);
            lemma_tag_content_again(token, XmlKind::Start, rating);
        }
        assert forall|i: int| 0 <= i < first.len() implies ((#[trigger] first[i]).kind
            == XmlKind::Start || first[i].kind == XmlKind::Empty ==> tag_holds(first[i], rating)) by {
            assert(first[i] == seen(next.pieces[model.pieces.len() + i], token.scope));
        }
        let shown = seen_from(tokens, model, rating);
        assert(shown =~= first + later);
        assert forall|i: int| 0 <= i < shown.len() implies ((#[trigger] shown[i]).kind
            == XmlKind::Start || shown[i].kind == XmlKind::Empty ==> tag_holds(shown[i], rating)) by {
            if i < first.len() {
                assert(shown[i] == first[i]);
            } else {
                assert(shown[i] == later[i - first.len()]);
            }
        }
    }
}

proof fn lemma_sees_what_holds(document: DocumentModel, written: Seq<TokenModel>, rating: u8)
    requires
        sees(document, written),
        forall|i: int|
            0 <= i < written.len() ==> ((#[trigger] written[i]).kind == XmlKind::Start
                || written[i].kind == XmlKind::Empty ==> tag_holds(written[i], rating)),
    ensures
        holds_only(document, rating),
{
    assert forall|i: int| 0 <= i < document.len() implies match #[trigger] document[i] {
        Ok(token) => (token.kind == XmlKind::Start || token.kind == XmlKind::Empty) ==> tag_holds(
            token,
            rating,
        ),
        Err(_) => true,
    } by {
        if i < written.len() {
            let token = document[i]->Ok_0;
            assert(sees_token(token, written[i]));
            if token.kind == XmlKind::Start || token.kind == XmlKind::Empty {
                assert(tag_holds(written[i], rating));
            }
        } else {
            assert(document[i] == document.last());
        }
    }
}

/// Rewriting a document that was rewritten with the same rating writes the same
/// bytes, and whatever rating attributes it has hold the rating.
///
/// Given are what an XML reader does with any document: closing tags match, and a
/// tag has the attributes written into it.
pub proof fn law_rewriting_the_same_rating_changes_no_byte(
    xml: Seq<char>,
    rating: u8,
    updated: Seq<char>,
)
    requires
        rewrite_update(xml, rating) is Ok,
        tags_match(document_of(xml), seq![]),
        tags_read_back(document_of(xml), rating),
        adds_cleanly(xml, rating),
        sees(document_of(updated), updated_tokens(xml, rating)),
    ensures
        rewrite_update(updated, rating) == rewrite_update(xml, rating),
        holds_only(document_of(updated), rating),
{
    let tokens = document_of(xml);
    let document = document_of(updated);
    let start = rewrite_nothing();
    lemma_rewrite_ends(tokens, start, rating);
    let end = rewritten_end(tokens, start, rating)->Some_0;
    let shown = seen_from(tokens, start, rating);
    lemma_seen_is_written(tokens, start, rating);
    assert(end.pieces =~= pieces_of(shown));
    lemma_seen_holds(tokens, start, rating);
    let (again, open) = lemma_keeps_in_step(tokens, start, start, seq![], rating);
    let all = updated_tokens(xml, rating);
    assert forall|i: int| 0 <= i < all.len() implies (#[trigger] all[i]).kind != XmlKind::Eof by {
        assert(document[i] matches Ok(token) && token.kind != XmlKind::Eof && sees_token(
            token,
            all[i],
        ));
    }
    if !end.wrote {
        let target = end.target->Some_0;
        let at = lemma_target_is_seen(tokens, start, rating);
        let tag = shown[at];
        let added = all[at];
        assert(all =~= shown.update(at, added));
        assert forall|i: int| 0 <= i < shown.len() implies (#[trigger] shown[i]).kind
            != XmlKind::Eof by {
            assert(all[i].kind == shown[i].kind);
        }
        lemma_copied_tag(shown, at, rating);
        lemma_added_again(tag, target.position, rating);
        lemma_rewrite_with_added(shown, at, added, rating);
        assert(pieces_of(all) =~= injected(end.pieces, target, rating));
        assert forall|i: int| 0 <= i < all.len() implies ((#[trigger] all[i]).kind
            == XmlKind::Start || all[i].kind == XmlKind::Empty ==> tag_holds(all[i], rating)) by {
            if i != at {
                assert(all[i] == shown[i]);
            }
        }
    }
    let once_more = rewrite_all(all, start, rating)->Some_0;
    let read = document.drop_last().map_values(|token: Result<TokenModel, Seq<char>>| token->Ok_0);
    assert forall|i: int| 0 <= i < read.len() implies (#[trigger] read[i]).kind != XmlKind::Eof
        && sees_token(read[i], all[i]) by {
        assert(document[i] == document.drop_last()[i]);
    }
    lemma_same_run(start, start, read, all, rating);
    lemma_rewrite_document(document, read, start, rating);
    let last = rewrite_all(read, start, rating)->Some_0;
    assert(last.pieces =~= once_more.pieces);
    lemma_sees_what_holds(document, all, rating);
}

/// A tag that a rewrite without a rating passed is written as it is.
proof fn lemma_copied_tag(shown: Seq<TokenModel>, at: int, rating: u8)
    requires
        0 <= at < shown.len(),
        shown[at].kind == XmlKind::Start || shown[at].kind == XmlKind::Empty,
        is_description(shown[at].scope, name_of(shown[at].content)),
        rewrite_all(shown, rewrite_nothing(), rating) matches Some(end) && !end.wrote && end.pieces
            == pieces_of(shown),
    ensures
        tag_content(shown[at], rating) == Ok::<(Seq<u8>, bool), Seq<char>>(
            (shown[at].content, false),
        ),
{
    let tag = shown[at];
    let start = rewrite_nothing();
    let (a, b) = (shown.take(at), shown.skip(at + 1));
    assert(shown =~= a + (seq![tag] + b));
    lemma_rewrite_all_concat(a, seq![tag] + b, start, rating);
    let before = rewrite_all(a, start, rating)->Some_0;
    assert((seq![tag] + b).drop_first() =~= b);
    let passed = rewrite_token(before, tag, rating)->Ok_0;
    let end = rewrite_all(b, passed, rating)->Some_0;
    if passed.wrote {
        lemma_wrote_stays(b, passed, rating);
    }
    lemma_one_piece_each(a, start, rating);
    lemma_kept_in_front(b, passed, rating);
    assert(end.pieces.take(passed.pieces.len() as int)[at] == passed.pieces[at]);
    assert(end.pieces[at] == (tag.kind, tag.content));
}

/// Writing the same rating again changes no byte: where a document was updated,
/// and the result can be updated at all, an update of the result with the same
/// rating gives the result itself.
///
/// Given is what an XML reader does with any document: it sees the update as it
/// was written.
pub proof fn law_writing_the_same_rating_again_changes_no_byte(
    xml: Seq<char>,
    rating: u8,
    updated: Seq<char>,
)
    requires
        updated_bytes(xml, rating) == Ok::<Seq<u8>, Seq<char>>(vstd::utf8::encode_utf8(updated)),
        updated_bytes(updated, rating) is Ok,
        sees_update(xml, rating, updated),
    ensures
        updated_bytes(updated, rating) == Ok::<Seq<u8>, Seq<char>>(
            vstd::utf8::encode_utf8(updated),
        ),
{
    match attribute_update(xml, rating) {
        Ok(Some(_)) => {
            lemma_spliced_holds(document_of(xml), document_of(updated), rating);
            lemma_scanned_alike(
                vstd::utf8::encode_utf8(xml),
                vstd::utf8::encode_utf8(updated),
                document_of(xml),
                document_of(updated),
                scan_nothing(),
                scan_nothing(),
                rating,
            );
        },
        _ => {
            law_rewriting_the_same_rating_changes_no_byte(xml, rating, updated);
        },
    }
    if attribute_update(updated, rating) matches Ok(Some(_)) {
        law_splicing_the_same_rating_changes_no_byte(updated, rating);
    }
}

/// A scan of a spliced document finds what the scan before found.
proof fn lemma_scanned_alike(
    doc: Seq<u8>,
    updated: Seq<u8>,
    before: DocumentModel,
    document: DocumentModel,
    model: SpliceModel,
    again: SpliceModel,
    rating: u8,
)
    requires
        scan_from(doc, before, model) is Ok,
        scan_from(updated, document, again) is Ok,
        sees_spliced(document, before, rating),
        again.open == model.open,
        again.element == model.element,
        again.spans.len() == model.spans.len(),
    ensures
        ({
            let a = scan_from(doc, before, model)->Ok_0;
            let b = scan_from(updated, document, again)->Ok_0;
            b.element == a.element && b.spans.len() == a.spans.len()
        }),
    decreases before.len(),
{
    let token = before[0]->Ok_0;
    let read = document[0]->Ok_0;
    assert(sees_spliced_token(read, token, rating));
    if token.kind != XmlKind::Eof {
        let next = scan_token(doc, model, token)->Ok_0;
        let after = scan_token(updated, again, read)->Ok_0;
        let rest = before.drop_first();
        if token.kind == XmlKind::Start || token.kind == XmlKind::Empty {
            let attributes = attributes_of(token.content, name_len_of(token.content));
            if is_description(token.scope, name_of(token.content)) {
                lemma_span_of_spliced(
                    token.scope,
                    token.content,
                    read.content,
                    attributes,
                    rating,
                );
            }
        }
        assert(sees_spliced(document.drop_first(), rest, rating)) by {
            assert forall|i: int| 0 <= i < rest.len() implies match #[trigger] rest[i] {
                Ok(token) => document.drop_first()[i] matches Ok(read) && sees_spliced_token(
                    read,
                    token,
                    rating,
                ),
                Err(_) => document.drop_first()[i] is Err,
            } by {
                assert(rest[i] == before[i + 1]);
            }
        }
        lemma_scanned_alike(doc, updated, rest, document.drop_first(), next, after, rating);
    }
}

proof fn lemma_span_of_spliced(
    scope: ScopeModel,
    content: Seq<u8>,
    spliced: Seq<u8>,
    attributes: AttributesModel,
    rating: u8,
)
    requires
        tag_span(scope, content, attributes) is Ok,
        tag_span(scope, spliced, spliced_attributes(scope, attributes, rating)) is Ok,
    ensures
        tag_span(scope, content, attributes)->Ok_0.rating is Some == (tag_span(
            scope,
            spliced,
            spliced_attributes(scope, attributes, rating),
        )->Ok_0.rating is Some),
    decreases attributes.len(),
{
    if attributes.len() > 0 {
        let shown = spliced_attributes(scope, attributes, rating);
        let before = attributes.drop_last();
        assert(shown.drop_last() =~= spliced_attributes(scope, before, rating));
        lemma_span_of_spliced(scope, content, spliced, before, rating);
    }
}

} // verus!
