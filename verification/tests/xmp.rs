//! Ratings in XMP sidecars.

use viewr_core::xmp::{new_sidecar, rated_sidecar, update_rating_xml, XmpError};

/// A rating of a numeric text: negative values are zero, large ones saturate.
fn number(text: &[u8]) -> Option<u8> {
    std::str::from_utf8(text)
        .ok()?
        .trim()
        .parse::<f32>()
        .ok()
        .map(|rating| rating.max(0.0) as u8)
}

fn parse_rating(xml: &str) -> Option<u8> {
    viewr_core::xmp::parse_rating(xml, number)
}


/// Shaped like a Lightroom sidecar: attribute form + crs data.
const LR_STYLE: &str = r#"<?xpacket begin="" id="W5M0MpCehiHzreSzNTczkc9d"?>
<x:xmpmeta xmlns:x="adobe:ns:meta/" x:xmptk="Adobe XMP Core 7.0-c000">
 <rdf:RDF xmlns:rdf="http://www.w3.org/1999/02/22-rdf-syntax-ns#">
  <rdf:Description rdf:about=""
    xmlns:xmp="http://ns.adobe.com/xap/1.0/"
    xmlns:crs="http://ns.adobe.com/camera-raw-settings/1.0/"
   xmp:Rating="2"
   crs:Exposure2012="+0.35"
   crs:Contrast2012="0">
   <crs:ToneCurvePV2012>
    <rdf:Seq>
     <rdf:li>0, 0</rdf:li>
     <rdf:li>255, 255</rdf:li>
    </rdf:Seq>
   </crs:ToneCurvePV2012>
  </rdf:Description>
 </rdf:RDF>
</x:xmpmeta>
<?xpacket end="w"?>"#;

/// Element form (darktable-style).
const ELEMENT_STYLE: &str = r#"<x:xmpmeta xmlns:x="adobe:ns:meta/">
 <rdf:RDF xmlns:rdf="http://www.w3.org/1999/02/22-rdf-syntax-ns#">
  <rdf:Description rdf:about="" xmlns:xmp="http://ns.adobe.com/xap/1.0/">
   <xmp:Rating>4</xmp:Rating>
  </rdf:Description>
 </rdf:RDF>
</x:xmpmeta>"#;

#[test]
fn parses_attribute_form() {
    assert_eq!(parse_rating(LR_STYLE), Some(2));
}

#[test]
fn parses_element_form() {
    assert_eq!(parse_rating(ELEMENT_STYLE), Some(4));
}

#[test]
fn namespace_aliases_work_for_attribute_and_element_forms() {
    let attribute = r#"<rdf:Description
            xmlns:rdf="http://www.w3.org/1999/02/22-rdf-syntax-ns#"
            xmlns:alias="http://ns.adobe.com/xap/1.0/"
            alias:Rating="3" keep="yes"/>"#;
    let element = r#"<rdf:Description
            xmlns:rdf="http://www.w3.org/1999/02/22-rdf-syntax-ns#"
            xmlns:photo="http://ns.adobe.com/xap/1.0/">
            <photo:Rating>4</photo:Rating>
        </rdf:Description>"#;

    assert_eq!(parse_rating(attribute), Some(3));
    assert_eq!(parse_rating(element), Some(4));

    let attribute = update_rating_xml(attribute, 5).unwrap();
    let element = update_rating_xml(element, 2).unwrap();
    assert!(attribute.contains(r#"alias:Rating="5""#));
    assert!(attribute.contains(r#"keep="yes""#));
    assert!(element.contains("<photo:Rating>2</photo:Rating>"));
    assert_eq!(parse_rating(&attribute), Some(5));
    assert_eq!(parse_rating(&element), Some(2));
}

#[test]
fn namespace_scopes_shadow_and_restore_rating_aliases() {
    let xml = r#"<root xmlns:rdf="http://www.w3.org/1999/02/22-rdf-syntax-ns#"
            xmlns:p="http://ns.adobe.com/xap/1.0/">
            <group xmlns:p="urn:not-xmp">
                <rdf:Description p:Rating="5"/>
            </group>
            <rdf:Description p:Rating="3"/>
        </root>"#;

    assert_eq!(parse_rating(xml), Some(3));
    let updated = update_rating_xml(xml, 4).unwrap();
    assert!(updated.contains(r#"<rdf:Description p:Rating="5"/>"#));
    assert!(updated.contains(r#"<rdf:Description p:Rating="4"/>"#));
}

#[test]
fn default_rdf_namespace_is_recognized_but_does_not_bind_attributes() {
    let attribute = r#"<Description
            xmlns="http://www.w3.org/1999/02/22-rdf-syntax-ns#"
            xmlns:xmp="http://ns.adobe.com/xap/1.0/"
            xmp:Rating="4"/>"#;
    let element = r#"<Description
            xmlns="http://www.w3.org/1999/02/22-rdf-syntax-ns#"
            xmlns:xmp="http://ns.adobe.com/xap/1.0/">
            <xmp:Rating>4</xmp:Rating>
        </Description>"#;
    let unqualified_attribute = r#"<Description
            xmlns="http://www.w3.org/1999/02/22-rdf-syntax-ns#"
            Rating="4"/>"#;

    assert_eq!(parse_rating(attribute), Some(4));
    assert_eq!(parse_rating(element), Some(4));
    assert_eq!(parse_rating(unqualified_attribute), None);
    assert_eq!(
        parse_rating(&update_rating_xml(attribute, 2).unwrap()),
        Some(2)
    );
    assert_eq!(
        parse_rating(&update_rating_xml(element, 2).unwrap()),
        Some(2)
    );

    let injected = update_rating_xml(unqualified_attribute, 3).unwrap();
    assert!(injected.contains(r#"Rating="4""#));
    assert_eq!(parse_rating(&injected), Some(3));
}

#[test]
fn undeclared_rating_prefix_is_not_xmp() {
    let xml = r#"<rdf:Description
            xmlns:rdf="http://www.w3.org/1999/02/22-rdf-syntax-ns#"
            unknown:Rating="4"/>"#;

    assert_eq!(parse_rating(xml), None);
    let updated = update_rating_xml(xml, 2).unwrap();
    assert!(updated.contains(r#"unknown:Rating="4""#));
    assert_eq!(parse_rating(&updated), Some(2));
}

#[test]
fn escaped_namespace_uri_still_resolves_to_xmp() {
    let xml = r#"<rdf:Description
            xmlns:rdf="http://www.w3.org/1999/02/22-rdf-syntax-ns#"
            xmlns:p="http://ns.adobe.com/xap/1.&#48;/"
            p:Rating="4"/>"#;

    assert_eq!(parse_rating(xml), Some(4));
    let updated = update_rating_xml(xml, 1).unwrap();
    assert!(updated.contains(r#"p:Rating="1""#));
    assert_eq!(parse_rating(&updated), Some(1));
}

#[test]
fn malformed_non_description_and_invalid_namespace_bindings_fail_closed() {
    let malformed = r#"<root broken
            xmlns:rdf="http://www.w3.org/1999/02/22-rdf-syntax-ns#"><rdf:Description
            xmlns:p="http://ns.adobe.com/xap/1.0/" p:Rating="4"/></root>"#;
    let duplicate_namespace = r#"<root
            xmlns:rdf="http://www.w3.org/1999/02/22-rdf-syntax-ns#"
            xmlns:p="urn:one" xmlns:p="urn:two">
            <rdf:Description xmlns:x="http://ns.adobe.com/xap/1.0/" x:Rating="4"/>
        </root>"#;
    let invalid_xml_binding = r#"<root
            xmlns:rdf="http://www.w3.org/1999/02/22-rdf-syntax-ns#"
            xmlns:xml="urn:not-xml">
            <rdf:Description xmlns:x="http://ns.adobe.com/xap/1.0/" x:Rating="4"/>
        </root>"#;
    let invalid_xmlns_binding = r#"<root
            xmlns:rdf="http://www.w3.org/1999/02/22-rdf-syntax-ns#"
            xmlns:xmlns="urn:not-xmlns">
            <rdf:Description xmlns:x="http://ns.adobe.com/xap/1.0/" x:Rating="4"/>
        </root>"#;

    for xml in [
        malformed,
        duplicate_namespace,
        invalid_xml_binding,
        invalid_xmlns_binding,
    ] {
        assert_eq!(parse_rating(xml), None);
        assert!(matches!(update_rating_xml(xml, 2), Err(XmpError::Xml(_))));
    }
}

#[test]
fn parse_validates_the_document_tail_before_returning_a_rating() {
    let truncated = r#"<root
            xmlns:rdf="http://www.w3.org/1999/02/22-rdf-syntax-ns#"
            xmlns:xmp="http://ns.adobe.com/xap/1.0/">
            <rdf:Description xmp:Rating="2"/><broken>"#;
    let mismatched = r#"<root
            xmlns:rdf="http://www.w3.org/1999/02/22-rdf-syntax-ns#"
            xmlns:xmp="http://ns.adobe.com/xap/1.0/">
            <rdf:Description xmp:Rating="2"></root>"#;

    for xml in [truncated, mismatched] {
        assert_eq!(parse_rating(xml), None);
        assert!(matches!(update_rating_xml(xml, 4), Err(XmpError::Xml(_))));
    }
}

#[test]
fn non_rdf_description_is_not_a_rating_subject() {
    let xml = r#"<root
            xmlns:fake="urn:not-rdf"
            xmlns:xmp="http://ns.adobe.com/xap/1.0/">
            <fake:Description xmp:Rating="2" keep="yes"/>
        </root>"#;

    assert_eq!(parse_rating(xml), None);
    assert!(matches!(update_rating_xml(xml, 4), Err(XmpError::Xml(_))));
}

#[test]
fn rating_elements_must_be_direct_rdf_description_properties() {
    let xml = r#"<root
            xmlns:rdf="http://www.w3.org/1999/02/22-rdf-syntax-ns#"
            xmlns:xmp="http://ns.adobe.com/xap/1.0/">
            <xmp:Rating>1</xmp:Rating>
            <rdf:Description>
                <wrapper><xmp:Rating>2</xmp:Rating></wrapper>
            </rdf:Description>
        </root>"#;

    assert_eq!(parse_rating(xml), None);
    let updated = update_rating_xml(xml, 4).unwrap();
    assert!(updated.contains("<xmp:Rating>1</xmp:Rating>"));
    assert!(updated.contains("<wrapper><xmp:Rating>2</xmp:Rating></wrapper>"));
    assert_eq!(parse_rating(&updated), Some(4));
}

#[test]
fn spaced_single_quoted_rating_splice_preserves_every_other_byte() {
    let xml = r#"<rdf:Description  xmlns:rdf='http://www.w3.org/1999/02/22-rdf-syntax-ns#'  xmlns:xmp='http://ns.adobe.com/xap/1.0/'  xmp:Rating = '2'  keep = 'A&amp;B'/>"#;
    let expected = r#"<rdf:Description  xmlns:rdf='http://www.w3.org/1999/02/22-rdf-syntax-ns#'  xmlns:xmp='http://ns.adobe.com/xap/1.0/'  xmp:Rating = '5'  keep = 'A&amp;B'/>"#;

    assert_eq!(update_rating_xml(xml, 5).unwrap(), expected);
    assert_eq!(parse_rating(expected), Some(5));
}

#[test]
fn empty_rating_element_does_not_capture_later_text_and_updates_in_place() {
    let sidecars = [
        r#"<rdf:Description
                xmlns:rdf="http://www.w3.org/1999/02/22-rdf-syntax-ns#"
                xmlns:p="http://ns.adobe.com/xap/1.0/">
                <p:Rating/><unrelated>5</unrelated>
            </rdf:Description>"#,
        r#"<rdf:Description
                xmlns:rdf="http://www.w3.org/1999/02/22-rdf-syntax-ns#"
                xmlns:p="http://ns.adobe.com/xap/1.0/">
                <p:Rating></p:Rating><unrelated>5</unrelated>
            </rdf:Description>"#,
    ];

    for xml in sidecars {
        assert_eq!(parse_rating(xml), None);
        let updated = update_rating_xml(xml, 3).unwrap();
        assert!(updated.contains("<p:Rating>3</p:Rating>"));
        assert!(!updated.contains("<p:Rating/"));
        assert!(!updated.contains(":Rating=\""));
        assert_eq!(parse_rating(&updated), Some(3));
    }
}

#[test]
fn cdata_rating_is_replaced_as_one_scalar_value() {
    let xml = r#"<rdf:Description
            xmlns:rdf="http://www.w3.org/1999/02/22-rdf-syntax-ns#"
            xmlns:p="http://ns.adobe.com/xap/1.0/">
            <p:Rating> <![CDATA[4]]> </p:Rating>
        </rdf:Description>"#;

    assert_eq!(parse_rating(xml), Some(4));
    let updated = update_rating_xml(xml, 1).unwrap();
    assert!(updated.contains("<p:Rating><![CDATA[1]]></p:Rating>"));
    assert!(!updated.contains("<![CDATA[4]]>"));
    assert_eq!(parse_rating(&updated), Some(1));
}

#[test]
fn attribute_update_touches_only_the_rating() {
    let updated = update_rating_xml(LR_STYLE, 5).unwrap();
    assert!(updated.contains(r#"xmp:Rating="5""#));
    assert!(updated.contains(r#"crs:Exposure2012="+0.35""#));
    assert!(updated.contains("ToneCurvePV2012"));
    assert!(updated.contains("<?xpacket begin="));
    assert!(updated.contains(r#"<?xpacket end="w"?>"#));
    // Idempotent on re-application.
    assert_eq!(update_rating_xml(&updated, 5).unwrap(), updated);
}

#[test]
fn element_update_replaces_text() {
    let updated = update_rating_xml(ELEMENT_STYLE, 1).unwrap();
    assert!(updated.contains("<xmp:Rating>1</xmp:Rating>"));
}

#[test]
fn injects_attribute_when_absent() {
    let bare = r#"<x:xmpmeta xmlns:x="adobe:ns:meta/">
 <rdf:RDF xmlns:rdf="http://www.w3.org/1999/02/22-rdf-syntax-ns#">
  <rdf:Description rdf:about="" xmlns:dc="http://purl.org/dc/elements/1.1/">
   <dc:subject><rdf:Bag><rdf:li>bird</rdf:li></rdf:Bag></dc:subject>
  </rdf:Description>
 </rdf:RDF>
</x:xmpmeta>"#;
    let updated = update_rating_xml(bare, 3).unwrap();
    assert!(updated.contains(r#"xmp:Rating="3""#));
    assert!(updated.contains("xmlns:xmp=\"http://ns.adobe.com/xap/1.0/\""));
    assert!(updated.contains("bird"));
}

#[test]
fn injection_reuses_an_existing_xmp_namespace_alias() {
    let bare = r#"<x:xmpmeta xmlns:x="adobe:ns:meta/"
            xmlns:photo="http://ns.adobe.com/xap/1.0/">
            <rdf:Description
                xmlns:rdf="http://www.w3.org/1999/02/22-rdf-syntax-ns#"
                keep="yes"/>
        </x:xmpmeta>"#;

    let updated = update_rating_xml(bare, 4).unwrap();

    assert!(updated.contains(r#"photo:Rating="4""#));
    assert!(!updated.contains("xmlns:xmp="));
    assert!(updated.contains(r#"keep="yes""#));
    assert_eq!(parse_rating(&updated), Some(4));
}

#[test]
fn fresh_sidecar_is_parseable_and_carries_rating() {
    let fresh = new_sidecar(4);
    assert_eq!(parse_rating(&fresh), Some(4));
}

#[test]
fn update_rejects_malformed_and_semantically_duplicate_attributes() {
    let malformed = r#"<rdf:Description
            xmlns:rdf="http://www.w3.org/1999/02/22-rdf-syntax-ns#"
            xmlns:p="http://ns.adobe.com/xap/1.0/"
            p:Rating="2" broken/>"#;
    let duplicate = r#"<rdf:Description
            xmlns:rdf="http://www.w3.org/1999/02/22-rdf-syntax-ns#"
            xmlns:a="http://ns.adobe.com/xap/1.0/"
            xmlns:b="http://ns.adobe.com/xap/1.0/"
            a:Rating="2" b:Rating="3"/>"#;

    assert!(matches!(
        update_rating_xml(malformed, 4),
        Err(XmpError::Xml(_))
    ));
    assert!(matches!(
        update_rating_xml(duplicate, 4),
        Err(XmpError::Xml(_))
    ));
    assert_eq!(parse_rating(malformed), None);
    assert_eq!(parse_rating(duplicate), None);
}

#[test]
fn update_rejects_well_formed_xml_without_an_rdf_description() {
    let original = r#"<x:xmpmeta xmlns:x="adobe:ns:meta/"><empty/></x:xmpmeta>"#;

    let error = update_rating_xml(original, 4).unwrap_err();

    assert!(matches!(error, XmpError::Xml(_)));
    assert_eq!(
        original,
        r#"<x:xmpmeta xmlns:x="adobe:ns:meta/"><empty/></x:xmpmeta>"#
    );
}

#[test]
fn update_rejects_truncated_attribute_and_element_documents() {
    let attribute = r#"<root
            xmlns:rdf="http://www.w3.org/1999/02/22-rdf-syntax-ns#"><rdf:Description
            xmlns:p="http://ns.adobe.com/xap/1.0/" p:Rating="2">"#;
    let element = r#"<root
            xmlns:rdf="http://www.w3.org/1999/02/22-rdf-syntax-ns#"
            xmlns:p="http://ns.adobe.com/xap/1.0/">
            <rdf:Description><p:Rating>2"#;

    assert!(matches!(
        update_rating_xml(attribute, 4),
        Err(XmpError::Xml(_))
    ));
    assert!(matches!(
        update_rating_xml(element, 4),
        Err(XmpError::Xml(_))
    ));
}

#[test]
fn rating_that_is_not_a_number_is_skipped() {
    let xml = r#"<rdf:Description
        xmlns:rdf="http://www.w3.org/1999/02/22-rdf-syntax-ns#"
        xmlns:xmp="http://ns.adobe.com/xap/1.0/" xmp:Rating="good">
        <xmp:Rating> 3.7 </xmp:Rating></rdf:Description>"#;
    assert_eq!(parse_rating(xml), Some(3));
    assert_eq!(parse_rating(&xml.replace(" 3.7 ", "-1")), Some(0));
    assert_eq!(parse_rating(&xml.replace(" 3.7 ", "900")), Some(255));
}

#[test]
fn existing_content_is_updated_and_missing_content_is_created() {
    assert_eq!(
        rated_sidecar(Some(LR_STYLE), 5).unwrap(),
        update_rating_xml(LR_STYLE, 5).unwrap()
    );
    assert_eq!(rated_sidecar(None, 5).unwrap(), new_sidecar(5));
    assert_eq!(
        new_sidecar(3),
        "<?xpacket begin=\"\u{FEFF}\" id=\"W5M0MpCehiHzreSzNTczkc9d\"?>\n\
         <x:xmpmeta xmlns:x=\"adobe:ns:meta/\" x:xmptk=\"viewr\">\n \
         <rdf:RDF xmlns:rdf=\"http://www.w3.org/1999/02/22-rdf-syntax-ns#\">\n  \
         <rdf:Description rdf:about=\"\"\n    \
         xmlns:xmp=\"http://ns.adobe.com/xap/1.0/\"\n   \
         xmp:Rating=\"3\"/>\n \
         </rdf:RDF>\n</x:xmpmeta>\n<?xpacket end=\"w\"?>"
    );
}

#[test]
fn splice_changes_the_rating_value_alone() {
    let updated = update_rating_xml(LR_STYLE, 4).unwrap();
    assert_eq!(updated, LR_STYLE.replace("Rating=\"2\"", "Rating=\"4\""));
}

#[test]
fn rewritten_attribute_values_keep_their_content() {
    let xml = r#"<rdf:Description
        xmlns:rdf="http://www.w3.org/1999/02/22-rdf-syntax-ns#"
        note='say "hi" &amp; go'/>"#;
    let updated = update_rating_xml(xml, 2).unwrap();
    assert!(updated.contains("note=\"say &quot;hi&quot; &amp; go\""));
    assert_eq!(parse_rating(&updated), Some(2));
}

#[test]
fn taken_prefixes_are_avoided_when_a_namespace_is_added() {
    let xml = r#"<rdf:Description
        xmlns:rdf="http://www.w3.org/1999/02/22-rdf-syntax-ns#"
        xmlns:xmp="urn:other"/>"#;
    let updated = update_rating_xml(xml, 2).unwrap();
    assert!(updated.contains("xmlns:xmp=\"urn:other\""));
    assert_eq!(parse_rating(&updated), Some(2));
}

#[test]
fn xmp_errors_say_what_failed() {
    assert_eq!(XmpError::Io("gone".to_owned()).message(), "io: gone");
    assert_eq!(XmpError::Xml("broken".to_owned()).message(), "xml: broken");
}

#[test]
fn every_form_of_update_reads_back_the_rating() {
    let description = |inner: &str| {
        format!(
            r#"<rdf:Description xmlns:rdf="http://www.w3.org/1999/02/22-rdf-syntax-ns#" xmlns:a="http://ns.adobe.com/xap/1.0/">{inner}</rdf:Description>"#
        )
    };
    let documents = [
        LR_STYLE.to_owned(),
        ELEMENT_STYLE.to_owned(),
        description("<a:Rating/>"),
        description("<a:Rating><![CDATA[1]]></a:Rating>"),
        description("<a:Rating>1<!-- two -->3</a:Rating>"),
        description("<b/>"),
        new_sidecar(3),
    ];
    for document in &documents {
        for rating in 0..=5 {
            let updated = update_rating_xml(document, rating).unwrap();
            assert_eq!(parse_rating(&updated), Some(rating), "{updated}");
        }
    }
}

#[test]
fn a_rating_added_beside_an_undeclared_one_is_not_readable() {
    let xml = r#"<rdf:Description
            xmlns:rdf="http://www.w3.org/1999/02/22-rdf-syntax-ns#"
            xmp:Rating="4"/>"#;
    let updated = update_rating_xml(xml, 2).unwrap();
    assert!(updated.contains(r#"xmp:Rating="4" xmp:Rating="2""#));
    assert_eq!(parse_rating(&updated), None);
}

#[test]
fn writing_the_same_rating_again_changes_no_byte() {
    let description = |attributes: &str, inner: &str| {
        format!(
            r#"<rdf:Description xmlns:rdf="http://www.w3.org/1999/02/22-rdf-syntax-ns#" {attributes}>{inner}</rdf:Description>"#
        )
    };
    let xmp = r#"xmlns:a="http://ns.adobe.com/xap/1.0/""#;
    let documents = [
        LR_STYLE.to_owned(),
        ELEMENT_STYLE.to_owned(),
        description(xmp, "<a:Rating/>"),
        description(xmp, "<a:Rating><![CDATA[1]]></a:Rating>"),
        description(xmp, "<a:Rating>1<!-- two -->3</a:Rating>"),
        description(r#"note='say "hi"'"#, "<b/>"),
        description(r#"xmlns:xmp="urn:other" x = 'y'"#, ""),
        new_sidecar(3),
    ];
    for document in &documents {
        for rating in 0..=5 {
            let updated = update_rating_xml(document, rating).unwrap();
            assert_eq!(update_rating_xml(&updated, rating).unwrap(), updated);
        }
    }
}

#[test]
fn rating_texts_with_entities_are_read_as_what_they_stand_for() {
    let document = |value: &str| {
        format!(
            r#"<rdf:Description xmlns:rdf="http://www.w3.org/1999/02/22-rdf-syntax-ns#" xmlns:a="http://ns.adobe.com/xap/1.0/" a:Rating="{value}"/>"#
        )
    };
    assert_eq!(parse_rating(&document("4")), Some(4));
    assert_eq!(parse_rating(&document("&#52;")), Some(4));
    assert_eq!(parse_rating(&document("&unknown;")), None);
}
