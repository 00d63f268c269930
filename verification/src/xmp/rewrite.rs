//! Rewriting of a document token by token, for rating elements and for documents
//! without a rating.

use quick_xml::NsReader;
use vstd::prelude::*;

use crate::text::{
    append_bytes, bytes_of, decimal, lemma_decimal_value, push_decimal, same_bytes,
};
use crate::xmp::document::{
    attributes_model, attributes_of, document_of, ends_document, is_description, is_document,
    is_namespace, is_rating_attribute, is_rating_element, is_rdf_description,
    is_xmp_rating_attribute, is_xmp_rating_element, name_len_of, name_of, names_namespace,
    next_token, open_document, opt_bytes, scope, scope_model, token_model, tokens_left,
    xmp_namespace, AttributesModel, DocumentModel, ScopeModel, TokenModel, XmlAttribute,
    XmlBinding, XmlKind, XmlToken,
};
use crate::xmp::read::{
    attributes_in, first_error, in_description, tag_name, validate_attributes,
};
use crate::xmp::splice::{rating_bytes, rating_text};

verus! {

// ---------------------------------------------------------------------------
// The rules
// ---------------------------------------------------------------------------

/// A token to write: its kind and content.
pub type PieceModel = (XmlKind, Seq<u8>);

/// What stands before the content of a token.
pub open spec fn opener_of(kind: XmlKind) -> &'static str {
    match kind {
        XmlKind::Start | XmlKind::Empty => "<",
        XmlKind::End => "</",
        XmlKind::CData => "<![CDATA[",
        XmlKind::Comment => "<!--",
        XmlKind::Decl | XmlKind::PI => "<?",
        XmlKind::DocType => "<!DOCTYPE ",
        XmlKind::Text | XmlKind::Eof => "",
    }
}

/// What stands behind the content of a token.
pub open spec fn closer_of(kind: XmlKind) -> &'static str {
    match kind {
        XmlKind::Start | XmlKind::End | XmlKind::DocType => ">",
        XmlKind::Empty => "/>",
        XmlKind::CData => "]]>",
        XmlKind::Comment => "-->",
        XmlKind::Decl | XmlKind::PI => "?>",
        XmlKind::Text | XmlKind::Eof => "",
    }
}

/// A token as it is written.
pub open spec fn markup(piece: PieceModel) -> Seq<u8> {
    bytes_of(opener_of(piece.0)) + piece.1 + bytes_of(closer_of(piece.0))
}

/// Tokens as they are written.
pub open spec fn written(pieces: Seq<PieceModel>) -> Seq<u8>
    decreases pieces.len(),
{
    if pieces.len() == 0 {
        seq![]
    } else {
        written(pieces.drop_last()) + markup(pieces.last())
    }
}

/// A raw value for use between double quotes.
pub open spec fn requoted(value: Seq<u8>) -> Seq<u8>
    decreases value.len(),
{
    if value.len() == 0 {
        seq![]
    } else if value.last() == 0x22 {
        requoted(value.drop_last()) + bytes_of("&quot;")
    } else {
        requoted(value.drop_last()).push(value.last())
    }
}

/// A tag with an attribute added.
pub open spec fn with_attribute(content: Seq<u8>, key: Seq<u8>, value: Seq<u8>) -> Seq<u8> {
    content + bytes_of(" ") + key + bytes_of("=\"") + value + bytes_of("\"")
}

/// A description's tag with the rating in place of its rating attribute, and
/// whether it has one. Every other attribute keeps its name and value.
pub open spec fn rewritten_tag(
    scope: ScopeModel,
    content: Seq<u8>,
    attributes: AttributesModel,
    rating: u8,
) -> Result<(Seq<u8>, bool), Seq<char>>
    decreases attributes.len(),
{
    if attributes.len() == 0 {
        Ok((name_of(content), false))
    } else {
        match (rewritten_tag(scope, content, attributes.drop_last(), rating), attributes.last()) {
            (Err(error), _) => Err(error),
            (_, Err(error)) => Err(error),
            (Ok((tag, found)), Ok((key, value))) => if !is_rating_attribute(scope, key) {
                Ok((with_attribute(tag, key, requoted(value)), found))
            } else if found {
                Err("duplicate XMP rating attributes on one element"@)
            } else {
                Ok((with_attribute(tag, key, rating_bytes(rating)), true))
            },
        }
    }
}

/// The first prefix in scope that stands for the XMP namespace.
pub open spec fn xmp_prefix(scope: ScopeModel) -> Option<Seq<u8>>
    decreases scope.len(),
{
    if scope.len() == 0 {
        None
    } else if scope[0].0 is Some && names_namespace(scope[0].1, xmp_namespace()) {
        scope[0].0
    } else {
        xmp_prefix(scope.drop_first())
    }
}

/// Prefixes to try for a namespace declaration, most natural first.
pub open spec fn candidate(k: nat) -> Seq<u8> {
    vstd::utf8::encode_utf8(
        if k == 0 {
            "xmp"@
        } else {
            "viewrXmp"@ + decimal(k)
        },
    )
}

/// Whether a prefix is in use.
pub open spec fn is_taken(scope: ScopeModel, prefix: Seq<u8>) -> bool {
    exists|i: int| 0 <= i < scope.len() && (#[trigger] scope[i]).0 == Some(prefix)
}

/// Whether a candidate is the first one that is not in use.
pub open spec fn is_fresh(scope: ScopeModel, k: nat) -> bool {
    &&& !is_taken(scope, candidate(k))
    &&& forall|j: nat| j < k ==> is_taken(scope, #[trigger] candidate(j))
}

/// The first candidate that is not in use.
pub open spec fn fresh_prefix(scope: ScopeModel) -> Seq<u8> {
    candidate(choose|k: nat| is_fresh(scope, k))
}

/// Where a rating can be added, and under which name.
pub struct TargetModel {
    /// The tag, by its place among the tokens written.
    pub position: int,
    pub rating_name: Seq<u8>,
    /// The namespace declaration to add, if no prefix stands for XMP.
    pub namespace_name: Option<Seq<u8>>,
}

/// The target that a description offers.
pub open spec fn target_of(scope: ScopeModel, position: int) -> TargetModel {
    match xmp_prefix(scope) {
        Some(prefix) => TargetModel {
            position,
            rating_name: prefix + bytes_of(":Rating"),
            namespace_name: None,
        },
        None => TargetModel {
            position,
            rating_name: fresh_prefix(scope) + bytes_of(":Rating"),
            namespace_name: Some(bytes_of("xmlns:") + fresh_prefix(scope)),
        },
    }
}

/// What has been rewritten of a document.
#[verifier::ext_equal]
pub struct RewriteModel {
    /// For each open element, whether it is an RDF description.
    pub open: Seq<bool>,
    /// Open rating elements: their depth, and whether they hold CDATA.
    pub ratings: Seq<(int, bool)>,
    /// Whether the rating has been written.
    pub wrote: bool,
    /// The first description.
    pub target: Option<TargetModel>,
    pub pieces: Seq<PieceModel>,
}

/// A tag as it is written, and whether it holds the rating attribute.
pub open spec fn tag_content(token: TokenModel, rating: u8) -> Result<(Seq<u8>, bool), Seq<char>> {
    let attributes = attributes_of(token.content, name_len_of(token.content));
    if is_description(token.scope, name_of(token.content)) {
        rewritten_tag(token.scope, token.content, attributes, rating)
    } else {
        match first_error(attributes) {
            Some(error) => Err(error),
            None => Ok((token.content, false)),
        }
    }
}

/// Whether text here belongs to the innermost rating element.
pub open spec fn in_rating_element(model: RewriteModel) -> bool {
    model.ratings.len() > 0 && model.open.len() == model.ratings.last().0 + 1
}

/// The state after a tag that opens an element or is one.
pub open spec fn rewrite_tag(model: RewriteModel, token: TokenModel, rating: u8) -> Result<
    RewriteModel,
    Seq<char>,
> {
    let name = name_of(token.content);
    let description = is_description(token.scope, name);
    let element = in_description(model.open) && is_rating_element(token.scope, name);
    match tag_content(token, rating) {
        Err(error) => Err(error),
        Ok((content, found)) => Ok(
            RewriteModel {
                open: if token.kind == XmlKind::Start {
                    model.open.push(description)
                } else {
                    model.open
                },
                ratings: if token.kind == XmlKind::Start && element {
                    model.ratings.push((model.open.len() as int, false))
                } else {
                    model.ratings
                },
                wrote: model.wrote || found || element,
                target: if description && model.target is None {
                    Some(target_of(token.scope, model.pieces.len() as int))
                } else {
                    model.target
                },
                pieces: if token.kind == XmlKind::Empty && element {
                    model.pieces.push((XmlKind::Start, content)).push(
                        (XmlKind::Text, rating_bytes(rating)),
                    ).push((XmlKind::End, name_of(content)))
                } else {
                    model.pieces.push((token.kind, content))
                },
            },
        ),
    }
}

/// The state after a token. The text of a rating element gives way to the
/// rating, as CDATA where the element held some.
pub open spec fn rewrite_token(model: RewriteModel, token: TokenModel, rating: u8) -> Result<
    RewriteModel,
    Seq<char>,
> {
    let kept = RewriteModel {
        pieces: model.pieces.push((token.kind, token.content)),
        ..model
    };
    match token.kind {
        XmlKind::Start | XmlKind::Empty => rewrite_tag(model, token, rating),
        XmlKind::Text => Ok(
            if in_rating_element(model) {
                model
            } else {
                kept
            },
        ),
        XmlKind::CData => Ok(
            if in_rating_element(model) {
                RewriteModel {
                    ratings: model.ratings.drop_last().push((model.ratings.last().0, true)),
                    ..model
                }
            } else {
                kept
            },
        ),
        XmlKind::End => if model.open.len() == 0 {
            Err("unexpected closing element"@)
        } else if is_rating_element(token.scope, token.content) && model.ratings.len() > 0
            && model.ratings.last().0 == model.open.len() - 1 {
            let kind = if model.ratings.last().1 {
                XmlKind::CData
            } else {
                XmlKind::Text
            };
            Ok(
                RewriteModel {
                    open: model.open.drop_last(),
                    ratings: model.ratings.drop_last(),
                    pieces: model.pieces.push((kind, rating_bytes(rating))).push(
                        (XmlKind::End, token.content),
                    ),
                    ..model
                },
            )
        } else {
            Ok(RewriteModel { open: model.open.drop_last(), ..kept })
        },
        _ => Ok(kept),
    }
}

/// The tokens with the rating added to the first description.
pub open spec fn injected(pieces: Seq<PieceModel>, target: TargetModel, rating: u8) -> Seq<
    PieceModel,
> {
    let piece = pieces[target.position];
    let rated = with_attribute(piece.1, target.rating_name, rating_bytes(rating));
    let content = match target.namespace_name {
        Some(name) => with_attribute(rated, name, xmp_namespace()),
        None => rated,
    };
    pieces.update(target.position, (piece.0, content))
}

/// The document at its end: as it was rewritten where the rating was written,
/// else with the rating added to the first description.
pub open spec fn finished(model: RewriteModel, rating: u8) -> Result<Seq<u8>, Seq<char>> {
    if model.open.len() > 0 {
        Err("unexpected end of document"@)
    } else if model.wrote {
        Ok(written(model.pieces))
    } else {
        match model.target {
            Some(target) => Ok(written(injected(model.pieces, target, rating))),
            None => Err("no RDF Description available for XMP rating"@),
        }
    }
}

/// The rewritten document from some token on.
pub open spec fn rewrite_from(tokens: DocumentModel, model: RewriteModel, rating: u8) -> Result<
    Seq<u8>,
    Seq<char>,
>
    decreases tokens.len(),
{
    if tokens.len() == 0 {
        Err("unexpected end of document"@)
    } else {
        match tokens[0] {
            Err(error) => Err(error),
            Ok(token) => if token.kind == XmlKind::Eof {
                finished(model, rating)
            } else {
                match rewrite_token(model, token, rating) {
                    Ok(next) => rewrite_from(tokens.drop_first(), next, rating),
                    Err(error) => Err(error),
                }
            },
        }
    }
}

/// Before the first token.
pub open spec fn rewrite_nothing() -> RewriteModel {
    RewriteModel { open: seq![], ratings: seq![], wrote: false, target: None, pieces: seq![] }
}

/// The general update of a document.
pub open spec fn rewrite_update(xml: Seq<char>, rating: u8) -> Result<Seq<u8>, Seq<char>> {
    rewrite_from(document_of(xml), rewrite_nothing(), rating)
}

// ---------------------------------------------------------------------------
// Rewriting
// ---------------------------------------------------------------------------

fn opener(kind: XmlKind) -> (text: &'static str)
    ensures
        text == opener_of(kind),
{
    match kind {
        XmlKind::Start | XmlKind::Empty => "<",
        XmlKind::End => "</",
        XmlKind::CData => "<![CDATA[",
        XmlKind::Comment => "<!--",
        XmlKind::Decl | XmlKind::PI => "<?",
        XmlKind::DocType => "<!DOCTYPE ",
        XmlKind::Text | XmlKind::Eof => "",
    }
}

fn closer(kind: XmlKind) -> (text: &'static str)
    ensures
        text == closer_of(kind),
{
    match kind {
        XmlKind::Start | XmlKind::End | XmlKind::DocType => ">",
        XmlKind::Empty => "/>",
        XmlKind::CData => "]]>",
        XmlKind::Comment => "-->",
        XmlKind::Decl | XmlKind::PI => "?>",
        XmlKind::Text | XmlKind::Eof => "",
    }
}

struct Piece {
    kind: XmlKind,
    content: Vec<u8>,
}

spec fn pieces_model(pieces: Seq<Piece>) -> Seq<PieceModel> {
    pieces.map_values(|piece: Piece| (piece.kind, piece.content@))
}

fn write_pieces(pieces: &Vec<Piece>) -> (out: Vec<u8>)
    ensures
        out@ == written(pieces_model(pieces@)),
{
    let ghost model = pieces_model(pieces@);
    let mut out: Vec<u8> = Vec::new();
    let mut i: usize = 0;
    proof {
        assert(model.take(0) =~= seq![]);
    }
    while i < pieces.len()
        invariant
            i <= pieces@.len(),
            model == pieces_model(pieces@),
            out@ == written(model.take(i as int)),
        decreases pieces@.len() - i,
    {
        let piece = &pieces[i];
        let ghost before = out@;
        proof {
            assert(model.take(i + 1).drop_last() =~= model.take(i as int));
            assert(model.take(i + 1).last() == (piece.kind, piece.content@));
        }
        append_bytes(&mut out, opener(piece.kind).as_bytes());
        append_bytes(&mut out, piece.content.as_slice());
        append_bytes(&mut out, closer(piece.kind).as_bytes());
        assert(out@ =~= before + markup((piece.kind, piece.content@)));
        i += 1;
    }
    assert(model.take(i as int) =~= model);
    out
}

fn requote(value: &[u8]) -> (out: Vec<u8>)
    ensures
        out@ == requoted(value@),
{
    let mut out: Vec<u8> = Vec::new();
    let mut i: usize = 0;
    proof {
        assert(value@.take(0) =~= seq![]);
    }
    while i < value.len()
        invariant
            i <= value@.len(),
            out@ == requoted(value@.take(i as int)),
        decreases value@.len() - i,
    {
        proof {
            assert(value@.take(i + 1).drop_last() =~= value@.take(i as int));
            assert(value@.take(i + 1).last() == value@[i as int]);
        }
        if value[i] == 0x22 {
            append_bytes(&mut out, "&quot;".as_bytes());
        } else {
            out.push(value[i]);
        }
        i += 1;
    }
    assert(value@.take(i as int) =~= value@);
    out
}

fn push_attribute(content: &mut Vec<u8>, key: &[u8], value: &[u8])
    ensures
        final(content)@ == with_attribute(old(content)@, key@, value@),
{
    append_bytes(content, " ".as_bytes());
    append_bytes(content, key);
    append_bytes(content, "=\"".as_bytes());
    append_bytes(content, value);
    append_bytes(content, "\"".as_bytes());
}

fn copy_bytes(bytes: &[u8]) -> (copy: Vec<u8>)
    ensures
        copy@ == bytes@,
{
    let mut copy: Vec<u8> = Vec::new();
    append_bytes(&mut copy, bytes);
    assert(copy@ =~= bytes@);
    copy
}

proof fn lemma_tag_rejected(
    names: ScopeModel,
    content: Seq<u8>,
    attributes: AttributesModel,
    rating: u8,
    n: int,
    error: Seq<char>,
)
    requires
        0 <= n <= attributes.len(),
        rewritten_tag(names, content, attributes.take(n), rating) == Err::<
            (Seq<u8>, bool),
            Seq<char>,
        >(error),
    ensures
        rewritten_tag(names, content, attributes, rating) == Err::<(Seq<u8>, bool), Seq<char>>(
            error,
        ),
    decreases attributes.len() - n,
{
    if n < attributes.len() {
        assert(attributes.take(n + 1).drop_last() =~= attributes.take(n));
        lemma_tag_rejected(names, content, attributes, rating, n + 1, error);
    } else {
        assert(attributes.take(n) =~= attributes);
    }
}

/// Rewrites the tag of a description.
fn rewrite_attrs(
    bindings: &Vec<XmlBinding>,
    content: &Vec<u8>,
    attributes: &Vec<Result<XmlAttribute, String>>,
    rating: u8,
) -> (rewritten: Result<(Vec<u8>, bool), String>)
    ensures
        match rewritten_tag(
            scope_model(bindings@),
            content@,
            attributes_model(attributes@),
            rating,
        ) {
            Ok((tag, found)) => rewritten matches Ok((made, has)) && made@ == tag && has == found,
            Err(error) => rewritten matches Err(text) && text@ == error,
        },
{
    let ghost names = scope_model(bindings@);
    let ghost model = attributes_model(attributes@);
    let value = rating_text(rating);
    let mut tag: Vec<u8> = copy_bytes(tag_name(content));
    let mut found: bool = false;
    let mut i: usize = 0;
    proof {
        assert(model.take(0) =~= seq![]);
    }
    while i < attributes.len()
        invariant
            i <= attributes@.len(),
            names == scope_model(bindings@),
            model == attributes_model(attributes@),
            value@ == decimal(rating as nat),
            rewritten_tag(names, content@, model.take(i as int), rating) == Ok::<
                (Seq<u8>, bool),
                Seq<char>,
            >((tag@, found)),
        decreases attributes@.len() - i,
    {
        proof {
            assert(model.take(i + 1).drop_last() =~= model.take(i as int));
            assert(model.take(i + 1).last() == model[i as int]);
        }
        match &attributes[i] {
            Err(error) => {
                proof {
                    lemma_tag_rejected(names, content@, model, rating, i + 1, error@);
                }
                return Err(error.clone());
            },
            Ok(attribute) => {
                if is_xmp_rating_attribute(bindings, attribute.key.as_slice()) {
                    if found {
                        proof {
                            lemma_tag_rejected(
                                names,
                                content@,
                                model,
                                rating,
                                i + 1,
                                "duplicate XMP rating attributes on one element"@,
                            );
                        }
                        return Err(
                            String::from_str("duplicate XMP rating attributes on one element"),
                        );
                    }
                    found = true;
                    push_attribute(
                        &mut tag,
                        attribute.key.as_slice(),
                        value.as_str().as_bytes(),
                    );
                } else {
                    let quoted = requote(attribute.value.as_slice());
                    push_attribute(&mut tag, attribute.key.as_slice(), quoted.as_slice());
                }
            },
        }
        i += 1;
    }
    assert(model.take(i as int) =~= model);
    Ok((tag, found))
}

// ---------------------------------------------------------------------------
// A name for the rating
// ---------------------------------------------------------------------------

/// Different candidates are different prefixes.
pub proof fn lemma_candidates_differ(j: nat, k: nat)
    requires
        candidate(j) == candidate(k),
    ensures
        j == k,
{
    broadcast use vstd::utf8::encode_utf8_decode_utf8;

    let a = if j == 0 {
        "xmp"@
    } else {
        "viewrXmp"@ + decimal(j)
    };
    let b = if k == 0 {
        "xmp"@
    } else {
        "viewrXmp"@ + decimal(k)
    };
    assert(vstd::utf8::decode_utf8(candidate(j)) == a);
    assert(vstd::utf8::decode_utf8(candidate(k)) == b);
    reveal_strlit("xmp");
    reveal_strlit("viewrXmp");
    if j > 0 && k > 0 {
        assert(a.skip(8) =~= decimal(j));
        assert(b.skip(8) =~= decimal(k));
        lemma_decimal_value(j);
        lemma_decimal_value(k);
    }
}

/// One of the first candidates is not in use, whatever the scope.
pub proof fn lemma_some_candidate_is_free(scope: ScopeModel)
    ensures
        exists|k: nat| k <= scope.len() && !is_taken(scope, #[trigger] candidate(k)),
{
    if forall|k: nat| k <= scope.len() ==> is_taken(scope, #[trigger] candidate(k)) {
        let wanted = Seq::new(scope.len() + 1, |k: int| Some(candidate(k as nat)));
        let used = Seq::new(scope.len(), |i: int| scope[i].0);
        assert forall|a: int, b: int| 0 <= a < b < wanted.len() implies wanted[a] != wanted[b] by {
            if wanted[a] == wanted[b] {
                lemma_candidates_differ(a as nat, b as nat);
            }
        }
        assert(wanted.no_duplicates());
        wanted.unique_seq_to_set();
        used.lemma_cardinality_of_set();
        assert(wanted.to_set().subset_of(used.to_set())) by {
            assert forall|p: Option<Seq<u8>>| wanted.to_set().contains(p) implies used.to_set().contains(
                p,
            ) by {
                let a = choose|a: int| 0 <= a < wanted.len() && wanted[a] == p;
                assert(is_taken(scope, candidate(a as nat)));
                let i = choose|i: int|
                    0 <= i < scope.len() && (#[trigger] scope[i]).0 == Some(candidate(a as nat));
                assert(used[i] == p);
            }
        }
        vstd::set_lib::lemma_len_subset(wanted.to_set(), used.to_set());
    }
}

fn has_prefix(bindings: &Vec<XmlBinding>, prefix: &[u8]) -> (taken: bool)
    ensures
        taken == is_taken(scope_model(bindings@), prefix@),
{
    let ghost model = scope_model(bindings@);
    let mut i: usize = 0;
    while i < bindings.len()
        invariant
            i <= bindings@.len(),
            model == scope_model(bindings@),
            forall|j: int| 0 <= j < i ==> (#[trigger] model[j]).0 != Some(prefix@),
        decreases bindings@.len() - i,
    {
        let binding = &bindings[i];
        assert(model[i as int].0 == opt_bytes(binding.prefix));
        match &binding.prefix {
            Some(bound) => {
                if same_bytes(bound.as_slice(), prefix) {
                    return true;
                }
            },
            None => {},
        }
        i += 1;
    }
    false
}

fn candidate_text(k: usize) -> (text: String)
    ensures
        vstd::utf8::encode_utf8(text@) == candidate(k as nat),
{
    if k == 0 {
        String::from_str("xmp")
    } else {
        let mut text = String::from_str("viewrXmp");
        push_decimal(&mut text, k as u64);
        text
    }
}

/// Picks the first candidate that is not in use.
fn pick_prefix(bindings: &Vec<XmlBinding>) -> (prefix: String)
    ensures
        vstd::utf8::encode_utf8(prefix@) == fresh_prefix(scope_model(bindings@)),
{
    let ghost model = scope_model(bindings@);
    let ghost free = choose|k: nat| k <= model.len() && !is_taken(model, #[trigger] candidate(k));
    proof {
        lemma_some_candidate_is_free(model);
    }
    let mut k: usize = 0;
    loop
        invariant
            model == scope_model(bindings@),
            free <= bindings@.len(),
            !is_taken(model, candidate(free)),
            k <= free,
            forall|j: nat| j < k ==> is_taken(model, #[trigger] candidate(j)),
        decreases free - k,
    {
        let text = candidate_text(k);
        if !has_prefix(bindings, text.as_str().as_bytes()) {
            proof {
                assert(is_fresh(model, k as nat));
                let picked = choose|k: nat| is_fresh(model, k);
                assert(is_fresh(model, picked));
                if picked < k {
                    assert(is_taken(model, candidate(picked)));
                }
                if picked > k {
                    assert(is_taken(model, candidate(k as nat)));
                }
            }
            return text;
        }
        let len: usize = bindings.len();
        k += 1;
    }
}

fn find_xmp_prefix(bindings: &Vec<XmlBinding>) -> (prefix: Option<Vec<u8>>)
    ensures
        opt_bytes(prefix) == xmp_prefix(scope_model(bindings@)),
{
    let ghost model = scope_model(bindings@);
    let mut i: usize = 0;
    proof {
        assert(model.skip(0) =~= model);
    }
    while i < bindings.len()
        invariant
            i <= bindings@.len(),
            model == scope_model(bindings@),
            xmp_prefix(model) == xmp_prefix(model.skip(i as int)),
        decreases bindings@.len() - i,
    {
        let binding = &bindings[i];
        assert(model.skip(i as int)[0] == (opt_bytes(binding.prefix), binding.namespace@));
        match &binding.prefix {
            Some(prefix) => {
                if is_namespace(
                    binding.namespace.as_slice(),
                    "http://ns.adobe.com/xap/1.0/".as_bytes(),
                ) {
                    return Some(copy_bytes(prefix.as_slice()));
                }
            },
            None => {},
        }
        assert(model.skip(i as int).drop_first() =~= model.skip(i + 1));
        i += 1;
    }
    None
}

struct InjectionTarget {
    position: usize,
    rating_name: Vec<u8>,
    namespace_name: Option<Vec<u8>>,
}

spec fn target_model(target: InjectionTarget) -> TargetModel {
    TargetModel {
        position: target.position as int,
        rating_name: target.rating_name@,
        namespace_name: opt_bytes(target.namespace_name),
    }
}

spec fn opt_target(target: Option<InjectionTarget>) -> Option<TargetModel> {
    match target {
        Some(target) => Some(target_model(target)),
        None => None,
    }
}

/// Names the rating that a description can take.
fn injection_target(bindings: &Vec<XmlBinding>, position: usize) -> (target: InjectionTarget)
    ensures
        target_model(target) == target_of(scope_model(bindings@), position as int),
        target.position == position,
{
    match find_xmp_prefix(bindings) {
        Some(prefix) => {
            let mut rating_name = prefix;
            append_bytes(&mut rating_name, ":Rating".as_bytes());
            InjectionTarget { position, rating_name, namespace_name: None }
        },
        None => {
            let prefix = pick_prefix(bindings);
            let mut rating_name = copy_bytes(prefix.as_str().as_bytes());
            append_bytes(&mut rating_name, ":Rating".as_bytes());
            let mut namespace_name = copy_bytes("xmlns:".as_bytes());
            append_bytes(&mut namespace_name, prefix.as_str().as_bytes());
            InjectionTarget { position, rating_name, namespace_name: Some(namespace_name) }
        },
    }
}

// ---------------------------------------------------------------------------
// The document
// ---------------------------------------------------------------------------

/// A rating element whose end has not been read.
#[derive(Debug, Clone, Copy, PartialEq, Eq, Structural)]
struct RatingElement {
    depth: usize,
    saw_cdata: bool,
}

spec fn ratings_model(ratings: Seq<RatingElement>) -> Seq<(int, bool)> {
    ratings.map_values(|element: RatingElement| (element.depth as int, element.saw_cdata))
}

struct RewriteState {
    open: Vec<bool>,
    ratings: Vec<RatingElement>,
    wrote: bool,
    target: Option<InjectionTarget>,
    pieces: Vec<Piece>,
}

impl View for RewriteState {
    type V = RewriteModel;

    closed spec fn view(&self) -> RewriteModel {
        RewriteModel {
            open: self.open@,
            ratings: ratings_model(self.ratings@),
            wrote: self.wrote,
            target: opt_target(self.target),
            pieces: pieces_model(self.pieces@),
        }
    }
}

impl RewriteState {
    spec fn wf(self) -> bool {
        self.target matches Some(target) ==> target.position < self.pieces@.len()
    }

    fn push(&mut self, kind: XmlKind, content: Vec<u8>)
        ensures
            final(self)@ == (RewriteModel {
                pieces: old(self)@.pieces.push((kind, content@)),
                ..old(self)@
            }),
            final(self).open == old(self).open,
            final(self).ratings == old(self).ratings,
            final(self).wrote == old(self).wrote,
            final(self).target == old(self).target,
            final(self).pieces@.len() == old(self).pieces@.len() + 1,
    {
        self.pieces.push(Piece { kind, content });
        assert(self@ =~= (RewriteModel {
            pieces: old(self)@.pieces.push((kind, content@)),
            ..old(self)@
        }));
    }

    fn in_rating(&self) -> (inside: bool)
        ensures
            inside == in_rating_element(self@),
    {
        if self.ratings.len() == 0 {
            return false;
        }
        let depth: usize = self.open.len();
        depth > 0 && depth - 1 == self.ratings[self.ratings.len() - 1].depth
    }

    /// Takes a tag that opens an element or is one.
    fn rewrite_tag(&mut self, token: &XmlToken, bindings: &Vec<XmlBinding>, rating: u8) -> (done:
        Result<(), String>)
        requires
            old(self).wf(),
            token.kind == XmlKind::Start || token.kind == XmlKind::Empty,
        ensures
            ({
                let model = TokenModel {
                    kind: token.kind,
                    content: token.content@,
                    end: token.end as int,
                    scope: scope_model(bindings@),
                };
                match rewrite_tag(old(self)@, model, rating) {
                    Ok(next) => done is Ok && final(self)@ == next && final(self).wf(),
                    Err(error) => done matches Err(text) && text@ == error,
                }
            }),
    {
        let ghost before = self@;
        let name = tag_name(&token.content);
        let description: bool = is_rdf_description(bindings, name);
        let depth: usize = self.open.len();
        let element: bool = depth > 0 && self.open[depth - 1] && is_xmp_rating_element(
            bindings,
            name,
        );
        let attributes = attributes_in(&token.content);
        let content: Vec<u8> = if description {
            match rewrite_attrs(bindings, &token.content, &attributes, rating) {
                Ok((content, found)) => {
                    if found {
                        self.wrote = true;
                    }
                    content
                },
                Err(error) => {
                    return Err(error);
                },
            }
        } else {
            match validate_attributes(&attributes) {
                Ok(()) => copy_bytes(token.content.as_slice()),
                Err(error) => {
                    return Err(error);
                },
            }
        };
        if description && self.target.is_none() {
            self.target = Some(injection_target(bindings, self.pieces.len()));
        }
        if element {
            self.wrote = true;
        }
        if token.kind == XmlKind::Start {
            self.push(XmlKind::Start, content);
            if element {
                self.ratings.push(RatingElement { depth, saw_cdata: false });
                assert(self@.ratings =~= before.ratings.push((depth as int, false)));
            }
            self.open.push(description);
        } else if element {
            let end = copy_bytes(tag_name(&content));
            let value = rating_text(rating);
            self.push(XmlKind::Start, content);
            self.push(XmlKind::Text, copy_bytes(value.as_str().as_bytes()));
            self.push(XmlKind::End, end);
        } else {
            self.push(XmlKind::Empty, content);
        }
        Ok(())
    }

    /// Takes the end of an element.
    fn rewrite_end(&mut self, token: &XmlToken, bindings: &Vec<XmlBinding>, rating: u8) -> (done:
        Result<(), String>)
        requires
            old(self).wf(),
            token.kind == XmlKind::End,
        ensures
            ({
                let model = TokenModel {
                    kind: token.kind,
                    content: token.content@,
                    end: token.end as int,
                    scope: scope_model(bindings@),
                };
                match rewrite_token(old(self)@, model, rating) {
                    Ok(next) => done is Ok && final(self)@ == next && final(self).wf(),
                    Err(error) => done matches Err(text) && text@ == error,
                }
            }),
    {
        let ghost before = self@;
        let open: usize = self.open.len();
        if open == 0 {
            return Err(String::from_str("unexpected closing element"));
        }
        let count: usize = self.ratings.len();
        if is_xmp_rating_element(bindings, token.content.as_slice()) && count > 0
            && self.ratings[count - 1].depth == open - 1 {
            let cdata: bool = self.ratings[count - 1].saw_cdata;
            self.ratings.pop();
            assert(self@.ratings =~= before.ratings.drop_last());
            let value = rating_text(rating);
            let kind: XmlKind = if cdata {
                XmlKind::CData
            } else {
                XmlKind::Text
            };
            self.push(kind, copy_bytes(value.as_str().as_bytes()));
        }
        self.push(XmlKind::End, copy_bytes(token.content.as_slice()));
        self.open.pop();
        assert(self@.open =~= before.open.drop_last());
        Ok(())
    }

    /// Takes a token other than the end of the document.
    fn rewrite(&mut self, token: &XmlToken, bindings: &Vec<XmlBinding>, rating: u8) -> (done: Result<
        (),
        String,
    >)
        requires
            old(self).wf(),
        ensures
            ({
                let model = TokenModel {
                    kind: token.kind,
                    content: token.content@,
                    end: token.end as int,
                    scope: scope_model(bindings@),
                };
                match rewrite_token(old(self)@, model, rating) {
                    Ok(next) => done is Ok && final(self)@ == next && final(self).wf(),
                    Err(error) => done matches Err(text) && text@ == error,
                }
            }),
    {
        let ghost before = self@;
        match token.kind {
            XmlKind::Start | XmlKind::Empty => self.rewrite_tag(token, bindings, rating),
            XmlKind::End => self.rewrite_end(token, bindings, rating),
            XmlKind::Text => {
                if !self.in_rating() {
                    self.push(XmlKind::Text, copy_bytes(token.content.as_slice()));
                }
                Ok(())
            },
            XmlKind::CData => {
                if self.in_rating() {
                    let last: usize = self.ratings.len() - 1;
                    let depth: usize = self.ratings[last].depth;
                    self.ratings.pop();
                    self.ratings.push(RatingElement { depth, saw_cdata: true });
                    assert(self@.ratings =~= before.ratings.drop_last().push(
                        (before.ratings.last().0, true),
                    ));
                } else {
                    self.push(XmlKind::CData, copy_bytes(token.content.as_slice()));
                }
                Ok(())
            },
            _ => {
                self.push(token.kind, copy_bytes(token.content.as_slice()));
                Ok(())
            },
        }
    }

    /// Adds the rating to the first description.
    fn inject(&mut self, rating: u8) -> (done: bool)
        requires
            old(self).wf(),
        ensures
            match old(self)@.target {
                Some(target) => done && final(self)@.pieces == injected(
                    old(self)@.pieces,
                    target,
                    rating,
                ),
                None => !done,
            },
    {
        let ghost before = self@;
        match &self.target {
            None => false,
            Some(target) => {
                let value = rating_text(rating);
                let piece = &self.pieces[target.position];
                let kind: XmlKind = piece.kind;
                let mut content = copy_bytes(piece.content.as_slice());
                assert(before.pieces[target.position as int] == (kind, content@));
                push_attribute(
                    &mut content,
                    target.rating_name.as_slice(),
                    value.as_str().as_bytes(),
                );
                match &target.namespace_name {
                    Some(name) => {
                        push_attribute(
                            &mut content,
                            name.as_slice(),
                            "http://ns.adobe.com/xap/1.0/".as_bytes(),
                        );
                    },
                    None => {},
                }
                let position: usize = target.position;
                self.pieces.set(position, Piece { kind, content });
                assert(self@.pieces =~= injected(
                    before.pieces,
                    before.target->0,
                    rating,
                ));
                true
            },
        }
    }

    /// Finishes the document.
    fn finish(self, rating: u8) -> (updated: Result<Vec<u8>, String>)
        requires
            self.wf(),
        ensures
            match finished(self@, rating) {
                Ok(expected) => updated matches Ok(made) && made@ == expected,
                Err(error) => updated matches Err(text) && text@ == error,
            },
    {
        let mut state = self;
        assert(state@.open.len() == state.open@.len());
        if state.open.len() > 0 {
            return Err(String::from_str("unexpected end of document"));
        }
        if !state.wrote && !state.inject(rating) {
            return Err(String::from_str("no RDF Description available for XMP rating"));
        }
        Ok(write_pieces(&state.pieces))
    }
}

/// Rewrites the document with the rating in place.
pub(crate) fn update_rating_xml_fallback(xml: &str, rating: u8) -> (updated: Result<Vec<u8>, String>)
    ensures
        match rewrite_update(xml@, rating) {
            Ok(expected) => updated matches Ok(made) && made@ == expected,
            Err(error) => updated matches Err(text) && text@ == error,
        },
{
    let mut reader: NsReader<&[u8]> = open_document(xml);
    let mut state = RewriteState {
        open: Vec::new(),
        ratings: Vec::new(),
        wrote: false,
        target: None,
        pieces: Vec::new(),
    };
    assert(state@ =~= rewrite_nothing());
    loop
        invariant
            is_document(tokens_left(reader)),
            state.wf(),
            rewrite_update(xml@, rating) == rewrite_from(tokens_left(reader), state@, rating),
        decreases tokens_left(reader).len(),
    {
        let ghost left = tokens_left(reader);
        let read = next_token(&mut reader);
        let ghost names = crate::xmp::document::scope_of(reader);
        assert(token_model(read, names) == left[0]);
        match read {
            Err(error) => {
                return Err(error);
            },
            Ok(token) => {
                if token.kind == XmlKind::Eof {
                    return state.finish(rating);
                }
                let bindings = scope(&reader);
                match state.rewrite(&token, &bindings, rating) {
                    Ok(()) => {},
                    Err(error) => {
                        return Err(error);
                    },
                }
                proof {
                    assert forall|i: int| 0 <= i < left.drop_first().len() implies (ends_document(
                        #[trigger] left.drop_first()[i],
                    ) <==> i == left.drop_first().len() - 1) by {
                        assert(left.drop_first()[i] == left[i + 1]);
                    }
                }
            },
        }
    }
}

} // verus!
