//! What the names, prefixes and texts of a sidecar mean.
use vstd::prelude::*;

use crate::text::bytes_of;
use crate::xmp::document::{
    bound_to, is_description, is_rating_attribute, is_rating_element, is_space, name_len_of,
    name_of, names_namespace, position_of, ScopeModel,
};
use crate::xmp::read::rating_texts_of;
use crate::xmp::{
    is_first_number, may_make, new_sidecar, parse_rating, rated_sidecar, update_rating_xml, XmpError,
};

verus! {

proof fn lemma_position(bytes: Seq<u8>, byte: u8, at: int)
    requires
        0 <= at <= bytes.len(),
        forall|i: int| 0 <= i < at ==> bytes[i] != byte,
        at < bytes.len() ==> bytes[at] == byte,
    ensures
        position_of(bytes, byte) == at,
    decreases at,
{
    if at > 0 {
        let rest = bytes.drop_first();
        assert forall|i: int| 0 <= i < at - 1 implies rest[i] != byte by {
            assert(rest[i] == bytes[i + 1]);
        }
        lemma_position(rest, byte, at - 1);
    }
}

/// Whether a prefix is bound to a namespace by the first binding of it in scope.
pub open spec fn is_bound_by(
    scope: ScopeModel,
    prefix: Option<Seq<u8>>,
    namespace: Seq<u8>,
    i: int,
) -> bool {
    &&& 0 <= i < scope.len()
    &&& scope[i].0 == prefix && names_namespace(scope[i].1, namespace)
    &&& forall|j: int| 0 <= j < i ==> (#[trigger] scope[j]).0 != prefix
}

/// Whether a prefix is bound to a namespace.
pub open spec fn is_bound(scope: ScopeModel, prefix: Option<Seq<u8>>, namespace: Seq<u8>) -> bool {
    exists|i: int| #[trigger] is_bound_by(scope, prefix, namespace, i)
}

proof fn lemma_bound(scope: ScopeModel, prefix: Option<Seq<u8>>, namespace: Seq<u8>)
    ensures
        is_bound(scope, prefix, namespace) <==> (bound_to(scope, prefix) matches Some(found)
            && names_namespace(found, namespace)),
    decreases scope.len(),
{
    if scope.len() > 0 {
        let rest = scope.drop_first();
        if scope[0].0 == prefix {
            if names_namespace(scope[0].1, namespace) {
                assert(is_bound_by(scope, prefix, namespace, 0));
            }
            if is_bound(scope, prefix, namespace) {
                let i = choose|i: int| #[trigger] is_bound_by(scope, prefix, namespace, i);
                assert(i == 0) by {
                    if i > 0 {
                        assert(scope[0].0 != prefix);
                    }
                }
            }
        } else {
            lemma_bound(rest, prefix, namespace);
            if is_bound(scope, prefix, namespace) {
                let i = choose|i: int| #[trigger] is_bound_by(scope, prefix, namespace, i);
                assert forall|j: int| 0 <= j < i - 1 implies (#[trigger] rest[j]).0 != prefix by {
                    assert(rest[j] == scope[j + 1]);
                }
                assert(rest[i - 1] == scope[i]);
                assert(is_bound_by(rest, prefix, namespace, i - 1));
            }
            if is_bound(rest, prefix, namespace) {
                let i = choose|i: int| #[trigger] is_bound_by(rest, prefix, namespace, i);
                assert forall|j: int| 0 <= j < i + 1 implies (#[trigger] scope[j]).0 != prefix by {
                    if j > 0 {
                        assert(scope[j] == rest[j - 1]);
                    }
                }
                assert(scope[i + 1] == rest[i]);
                assert(is_bound_by(scope, prefix, namespace, i + 1));
            }
        }
    }
}

/// A name with a prefix means what its last part says in the namespace that its prefix
/// is bound to, whatever the prefix is called.
pub proof fn law_prefixes_stand_for_their_namespace(
    scope: ScopeModel,
    prefix: Seq<u8>,
    local: Seq<u8>,
)
    requires
        forall|i: int| 0 <= i < prefix.len() ==> prefix[i] != 0x3A,
    ensures
        ({
            let name = prefix + seq![0x3Au8] + local;
            let xmp = is_bound(scope, Some(prefix), bytes_of("http://ns.adobe.com/xap/1.0/"));
            let rdf = is_bound(
                scope,
                Some(prefix),
                bytes_of("http://www.w3.org/1999/02/22-rdf-syntax-ns#"),
            );
            &&& is_rating_attribute(scope, name) <==> xmp && local == bytes_of("Rating")
            &&& is_rating_element(scope, name) <==> xmp && local == bytes_of("Rating")
            &&& is_description(scope, name) <==> rdf && local == bytes_of("Description")
        }),
{
    let name = prefix + seq![0x3Au8] + local;
    assert forall|i: int| 0 <= i < prefix.len() implies name[i] != 0x3A by {
        assert(name[i] == prefix[i]);
    }
    assert(name[prefix.len() as int] == 0x3A);
    lemma_position(name, 0x3A, prefix.len() as int);
    assert(name.take(prefix.len() as int) =~= prefix);
    assert(name.skip(prefix.len() as int + 1) =~= local);
    lemma_bound(scope, Some(prefix), bytes_of("http://ns.adobe.com/xap/1.0/"));
    lemma_bound(
        scope,
        Some(prefix),
        bytes_of("http://www.w3.org/1999/02/22-rdf-syntax-ns#"),
    );
}

/// An element without a prefix lies in the default namespace. An attribute without one
/// is never a rating.
pub proof fn law_plain_names_take_the_default_namespace(scope: ScopeModel, name: Seq<u8>)
    requires
        forall|i: int| 0 <= i < name.len() ==> name[i] != 0x3A,
    ensures
        !is_rating_attribute(scope, name),
        is_rating_element(scope, name) <==> name == bytes_of("Rating") && is_bound(
            scope,
            None,
            bytes_of("http://ns.adobe.com/xap/1.0/"),
        ),
        is_description(scope, name) <==> name == bytes_of("Description") && is_bound(
            scope,
            None,
            bytes_of("http://www.w3.org/1999/02/22-rdf-syntax-ns#"),
        ),
{
    lemma_position(name, 0x3A, name.len() as int);
    lemma_bound(scope, None, bytes_of("http://ns.adobe.com/xap/1.0/"));
    lemma_bound(scope, None, bytes_of("http://www.w3.org/1999/02/22-rdf-syntax-ns#"));
}

proof fn lemma_name_len_is(content: Seq<u8>, len: int)
    requires
        0 <= len <= content.len(),
        forall|i: int| 0 <= i < len ==> !is_space(#[trigger] content[i]),
        len < content.len() ==> is_space(content[len]),
    ensures
        name_len_of(content) == len,
    decreases len,
{
    if len > 0 {
        let rest = content.drop_first();
        assert(!is_space(content[0]));
        assert forall|i: int| 0 <= i < len - 1 implies !is_space(#[trigger] rest[i]) by {
            assert(rest[i] == content[i + 1]);
        }
        lemma_name_len_is(rest, len - 1);
    }
}

/// The name of a tag is what stands before its first blank, tabulator or line end.
pub proof fn law_tag_names_end_at_the_first_space(name: Seq<u8>, rest: Seq<u8>)
    requires
        forall|i: int|
            0 <= i < name.len() ==> #[trigger] name[i] != 0x20 && name[i] != 0x09 && name[i] != 0x0A
                && name[i] != 0x0D,
        rest.len() > 0 ==> rest[0] == 0x20 || rest[0] == 0x09 || rest[0] == 0x0A || rest[0]
            == 0x0D,
    ensures
        name_of(name + rest) == name,
{
    let content = name + rest;
    assert forall|i: int| 0 <= i < name.len() implies !is_space(#[trigger] content[i]) by {
        assert(content[i] == name[i]);
    }
    lemma_name_len_is(content, name.len() as int);
    assert(content.take(name.len() as int) =~= name);
}

proof fn lemma_first<F: Fn(&[u8]) -> Option<u8>>(
    number: F,
    texts: Seq<Seq<u8>>,
    rating: Option<u8>,
) -> (n: int)
    requires
        is_first_number(number, texts, rating),
    ensures
        0 <= n <= texts.len(),
        forall|i: int| 0 <= i < n ==> may_make(number, #[trigger] texts[i], None),
        rating is None ==> n == texts.len(),
        rating is Some ==> n < texts.len() && may_make(number, texts[n], rating),
    decreases texts.len(),
{
    if texts.len() == 0 {
        0
    } else if rating is Some && may_make(number, texts[0], rating) {
        0
    } else {
        let rest = texts.drop_first();
        let n = lemma_first(number, rest, rating);
        assert forall|i: int| 0 <= i < n + 1 implies may_make(number, #[trigger] texts[i], None) by {
            if i > 0 {
                assert(texts[i] == rest[i - 1]);
            }
        }
        if rating is Some {
            assert(texts[n + 1] == rest[n]);
        }
        n + 1
    }
}

/// The rating of a document is the number of its first rating text that is one: no text
/// before it is, and where none is there is no rating. A document that is rejected has
/// none either.
pub proof fn law_the_first_number_is_the_rating<F: Fn(&[u8]) -> Option<u8>>(
    xml: &str,
    number: F,
    rating: Option<u8>,
) -> (n: int)
    requires
        call_ensures(parse_rating::<F>, (xml, number), rating),
    ensures
        rating_texts_of(xml@) is None ==> rating is None,
        rating_texts_of(xml@) matches Some(texts) ==> {
            &&& 0 <= n <= texts.len()
            &&& forall|i: int| 0 <= i < n ==> may_make(number, #[trigger] texts[i], None)
            &&& rating is None ==> n == texts.len()
            &&& rating is Some ==> n < texts.len() && may_make(number, texts[n], rating)
        },
{
    match rating_texts_of(xml@) {
        Some(texts) => lemma_first(number, texts, rating),
        None => 0,
    }
}

/// A message names the kind of its error and then the reason.
pub proof fn law_messages_give_the_reason(reason: String, io: String, xml: String)
    requires
        call_ensures(XmpError::message, (&XmpError::Io(reason),), io),
        call_ensures(XmpError::message, (&XmpError::Xml(reason),), xml),
    ensures
        io@ == "io: "@ + reason@,
        xml@ == "xml: "@ + reason@,
{
}

/// A sidecar that exists is updated, and one that does not is created, whatever the
/// rating.
pub proof fn law_existing_sidecars_are_updated(
    xml: &str,
    rating: u8,
    updated: Result<String, XmpError>,
    content: Result<String, XmpError>,
    created: Result<String, XmpError>,
    made: String,
)
    requires
        call_ensures(update_rating_xml, (xml, rating), updated),
        call_ensures(rated_sidecar, (Some(xml), rating), content),
        call_ensures(rated_sidecar, (None, rating), created),
        call_ensures(new_sidecar, (rating,), made),
    ensures
        updated matches Ok(text) ==> (content matches Ok(other) ==> vstd::utf8::encode_utf8(other@)
            == vstd::utf8::encode_utf8(text@)),
        created matches Ok(text) && text@ == made@,
{
}

} // verus!
