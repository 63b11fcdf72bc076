use saml_metadata::cipher::{EncryptedCipherData, EncryptedCipherValue};
use saml_metadata::descriptor::{ContactPerson, Organization, SpSsoDescriptor};
use saml_metadata::entity::EntityDescriptor;
use saml_metadata::error::MetadataError;
use saml_metadata::timestamp::Timestamp;

fn empty_entity() -> EntityDescriptor {
    EntityDescriptor {
        entity_id: None,
        id: None,
        valid_until: None,
        cache_duration: None,
        sp_sso_descriptors: None,
        organization: None,
        contact_person: None,
    }
}

const EMPTY_ENTITY_XML: &str = "<md:EntityDescriptor xmlns:md=\"urn:oasis:names:tc:SAML:2.0:metadata\" xmlns:saml=\"urn:oasis:names:tc:SAML:2.0:assertion\" xmlns:mdrpi=\"urn:oasis:names:tc:SAML:metadata:rpi\" xmlns:mdattr=\"urn:oasis:names:tc:SAML:metadata:attribute\" xmlns:mdui=\"urn:oasis:names:tc:SAML:metadata:ui\" xmlns:idpdisc=\"urn:oasis:names:tc:SAML:profiles:SSO:idp-discovery-protocol\" xmlns:ds=\"http://www.w3.org/2000/09/xmldsig#\"></md:EntityDescriptor>";

#[test]
fn cipher_value_with_text_encodes_as_element_with_character_data() {
    let cv = EncryptedCipherValue { value: Some(String::from("QUJD")) };
    assert_eq!(cv.to_xml(), "<xenc:CipherValue>QUJD</xenc:CipherValue>");
}

#[test]
fn cipher_value_without_text_encodes_self_closing() {
    let cv = EncryptedCipherValue { value: None };
    assert_eq!(cv.to_xml(), "<xenc:CipherValue/>");
}

#[test]
fn cipher_data_embeds_value_fragment_without_double_escaping() {
    let cd = EncryptedCipherData { value: EncryptedCipherValue { value: Some(String::from("QUJD")) } };
    assert_eq!(
        cd.to_xml(),
        "<xenc:CipherData><xenc:CipherValue>QUJD</xenc:CipherValue></xenc:CipherData>"
    );
}

#[test]
fn cipher_data_decodes_embedded_value() {
    let cd = EncryptedCipherData::from_xml(
        "<xenc:CipherData><xenc:CipherValue>QUJD</xenc:CipherValue></xenc:CipherData>",
    )
    .unwrap();
    assert_eq!(cd.value.value, Some(String::from("QUJD")));
}

#[test]
fn cipher_value_payload_is_escaped_exactly_once() {
    let cv = EncryptedCipherValue { value: Some(String::from("a<b&c>\"d'")) };
    let xml = cv.to_xml();
    assert_eq!(
        xml,
        "<xenc:CipherValue>a&lt;b&amp;c&gt;&quot;d&apos;</xenc:CipherValue>"
    );
    let back = EncryptedCipherValue::from_xml(&xml).unwrap();
    assert_eq!(back.value, Some(String::from("a<b&c>\"d'")));
}

#[test]
fn cipher_value_round_trips() {
    let cv = EncryptedCipherValue { value: Some(String::from("dGVzdA==")) };
    let back = EncryptedCipherValue::from_xml(&cv.to_xml()).unwrap();
    assert_eq!(back, cv);
    let none = EncryptedCipherValue { value: None };
    let back = EncryptedCipherValue::from_xml(&none.to_xml()).unwrap();
    assert_eq!(back, none);
}

#[test]
fn cipher_value_empty_element_decodes_to_none() {
    let back = EncryptedCipherValue::from_xml("<xenc:CipherValue></xenc:CipherValue>").unwrap();
    assert_eq!(back.value, None);
}

#[test]
fn cipher_data_without_child_is_a_structure_error() {
    assert_eq!(
        EncryptedCipherData::from_xml("<xenc:CipherData/>"),
        Err(MetadataError::StructureError)
    );
    assert_eq!(
        EncryptedCipherData::from_xml("<xenc:CipherData></xenc:CipherData>"),
        Err(MetadataError::StructureError)
    );
}

#[test]
fn cipher_value_malformed_is_a_syntax_error() {
    assert_eq!(
        EncryptedCipherValue::from_xml("<xenc:CipherValue>abc"),
        Err(MetadataError::SyntaxError)
    );
    assert_eq!(
        EncryptedCipherValue::from_xml("<xenc:CipherValue>a&unknown;b</xenc:CipherValue>"),
        Err(MetadataError::SyntaxError)
    );
}

#[test]
fn element_names_are_fixed() {
    assert_eq!(EncryptedCipherValue::name(), "xenc:CipherValue");
    assert_eq!(EncryptedCipherData::name(), "xenc:CipherData");
}

#[test]
fn empty_entity_encodes_to_namespace_only_root() {
    let xml = empty_entity().to_xml().unwrap();
    assert_eq!(xml, EMPTY_ENTITY_XML);
}

#[test]
fn empty_entity_round_trips_to_all_none() {
    let xml = empty_entity().to_xml().unwrap();
    let back = EntityDescriptor::from_xml(&xml).unwrap();
    assert_eq!(back, empty_entity());
}

#[test]
fn encoding_twice_is_byte_identical() {
    let e = EntityDescriptor {
        entity_id: Some(String::from("https://sp.example.org/saml")),
        valid_until: Some(Timestamp { year: 2013, month: 3, day: 15, hour: 7, minute: 30, second: 45 }),
        organization: Some(Organization { organization_name: Some(String::from("Example")) }),
        ..empty_entity()
    };
    assert_eq!(e.to_xml().unwrap(), e.to_xml().unwrap());
}

#[test]
fn valid_until_renders_at_second_precision_with_utc_marker() {
    let e = EntityDescriptor {
        valid_until: Some(Timestamp { year: 2013, month: 3, day: 15, hour: 7, minute: 8, second: 5 }),
        ..empty_entity()
    };
    let xml = e.to_xml().unwrap();
    assert!(xml.contains(" validUntil=\"2013-03-15T07:08:05Z\""));
}

#[test]
fn timestamp_renders_zero_padded() {
    let t = Timestamp { year: 987, month: 1, day: 2, hour: 3, minute: 4, second: 5 };
    assert_eq!(t.to_rfc3339(), "0987-01-02T03:04:05Z");
}

#[test]
fn entity_round_trips_with_all_supported_fields() {
    let e = EntityDescriptor {
        entity_id: Some(String::from("https://sp.example.org/saml?x=1&y=\"q\"")),
        id: None,
        valid_until: Some(Timestamp { year: 2024, month: 2, day: 29, hour: 23, minute: 59, second: 59 }),
        cache_duration: None,
        sp_sso_descriptors: Some(vec![
            SpSsoDescriptor {
                protocol_support_enumeration: Some(String::from("urn:oasis:names:tc:SAML:2.0:protocol")),
            },
            SpSsoDescriptor { protocol_support_enumeration: None },
        ]),
        organization: Some(Organization { organization_name: Some(String::from("Ex & Co <org>")) }),
        contact_person: Some(ContactPerson { contact_type: Some(String::from("technical")) }),
    };
    let xml = e.to_xml().unwrap();
    let back = EntityDescriptor::from_xml(&xml).unwrap();
    assert_eq!(back, e);
}

#[test]
fn sp_sso_descriptors_stand_before_organization_in_output() {
    let e = EntityDescriptor {
        sp_sso_descriptors: Some(vec![SpSsoDescriptor {
            protocol_support_enumeration: Some(String::from("urn:oasis:names:tc:SAML:2.0:protocol")),
        }]),
        organization: Some(Organization { organization_name: Some(String::from("Example")) }),
        ..empty_entity()
    };
    let xml = e.to_xml().unwrap();
    let sp_at = xml.find("<md:SPSSODescriptor").unwrap();
    let org_at = xml.find("<md:Organization").unwrap();
    assert!(sp_at < org_at);
}

#[test]
fn malformed_valid_until_is_a_timestamp_error() {
    let xml = "<md:EntityDescriptor validUntil=\"not-a-date\" xmlns:md=\"urn:oasis:names:tc:SAML:2.0:metadata\"></md:EntityDescriptor>";
    assert_eq!(EntityDescriptor::from_xml(xml), Err(MetadataError::TimestampError));
}

#[test]
fn malformed_valid_until_leaves_sibling_fields_unaffected() {
    let good = "<md:EntityDescriptor entityID=\"https://sp.example.org\" validUntil=\"2013-03-15T07:30:45Z\"></md:EntityDescriptor>";
    let d = EntityDescriptor::from_xml(good).unwrap();
    assert_eq!(d.entity_id, Some(String::from("https://sp.example.org")));
    assert_eq!(
        d.valid_until,
        Some(Timestamp { year: 2013, month: 3, day: 15, hour: 7, minute: 30, second: 45 })
    );
    let bad = "<md:EntityDescriptor entityID=\"https://sp.example.org\" validUntil=\"2013-03-15\"></md:EntityDescriptor>";
    assert_eq!(EntityDescriptor::from_xml(bad), Err(MetadataError::TimestampError));
}

#[test]
fn invalid_calendar_date_is_a_timestamp_error() {
    let xml = "<md:EntityDescriptor validUntil=\"2023-02-29T00:00:00Z\"></md:EntityDescriptor>";
    assert_eq!(EntityDescriptor::from_xml(xml), Err(MetadataError::TimestampError));
    let leap = "<md:EntityDescriptor validUntil=\"2024-02-29T00:00:00Z\"></md:EntityDescriptor>";
    assert!(EntityDescriptor::from_xml(leap).is_ok());
}

#[test]
fn unknown_attributes_and_elements_are_ignored() {
    let xml = "<md:EntityDescriptor entityID=\"urn:x\" future=\"yes\"><mdrpi:PublicationInfo publisher=\"urn:p\"/><md:Extensions><saml:Inner a=\"1\"><saml:Deep/>text</saml:Inner>tail</md:Extensions><md:SPSSODescriptor/></md:EntityDescriptor>";
    let d = EntityDescriptor::from_xml(xml).unwrap();
    assert_eq!(d.entity_id, Some(String::from("urn:x")));
    assert_eq!(
        d.sp_sso_descriptors,
        Some(vec![SpSsoDescriptor { protocol_support_enumeration: None }])
    );
}

#[test]
fn wrong_root_element_is_a_validation_error() {
    assert_eq!(
        EntityDescriptor::from_xml("<md:Wrong/>"),
        Err(MetadataError::ValidationError)
    );
}

#[test]
fn organization_without_name_child_is_a_validation_error() {
    let xml = "<md:EntityDescriptor><md:Organization></md:Organization></md:EntityDescriptor>";
    assert_eq!(EntityDescriptor::from_xml(xml), Err(MetadataError::ValidationError));
}

#[test]
fn self_closing_organization_decodes_to_no_name() {
    let xml = "<md:EntityDescriptor><md:Organization/></md:EntityDescriptor>";
    let d = EntityDescriptor::from_xml(xml).unwrap();
    assert_eq!(d.organization, Some(Organization { organization_name: None }));
}

#[test]
fn truncated_document_is_a_syntax_error() {
    assert_eq!(
        EntityDescriptor::from_xml("<md:EntityDescriptor entityID=\"x"),
        Err(MetadataError::SyntaxError)
    );
    assert_eq!(EntityDescriptor::from_xml("plain text"), Err(MetadataError::SyntaxError));
}

#[test]
fn entity_id_attribute_value_is_escaped_and_unescaped() {
    let e = EntityDescriptor {
        entity_id: Some(String::from("urn:a&b<c>\"d\"")),
        ..empty_entity()
    };
    let xml = e.to_xml().unwrap();
    assert!(xml.contains("entityID=\"urn:a&amp;b&lt;c&gt;&quot;d&quot;\""));
    let back = EntityDescriptor::from_xml(&xml).unwrap();
    assert_eq!(back.entity_id, e.entity_id);
}

#[test]
fn whitespace_between_children_is_tolerated() {
    let xml = "<md:EntityDescriptor>\n  <md:SPSSODescriptor/>\n  <md:ContactPerson contactType=\"support\"/>\n</md:EntityDescriptor>\n";
    let d = EntityDescriptor::from_xml(xml).unwrap();
    assert_eq!(
        d.contact_person,
        Some(ContactPerson { contact_type: Some(String::from("support")) })
    );
    assert_eq!(d.sp_sso_descriptors.map(|v| v.len()), Some(1));
}

#[test]
fn nested_unknown_elements_leave_the_decoded_value_unchanged() {
    let plain = empty_entity().to_xml().unwrap();
    let with_extra = plain.replace(
        "</md:EntityDescriptor>",
        "<a><b/></a></md:EntityDescriptor>",
    );
    let d1 = EntityDescriptor::from_xml(&plain).unwrap();
    let d2 = EntityDescriptor::from_xml(&with_extra).unwrap();
    assert_eq!(d1, d2);
    assert_eq!(d2, empty_entity());
}

#[test]
fn xml_declaration_is_accepted_before_the_root() {
    let xml = "<?xml version=\"1.0\" encoding=\"UTF-8\"?>\n<md:EntityDescriptor entityID=\"urn:x\"></md:EntityDescriptor>";
    let d = EntityDescriptor::from_xml(xml).unwrap();
    assert_eq!(d.entity_id, Some(String::from("urn:x")));
}

#[test]
fn comments_between_children_are_ignored() {
    let xml = "<md:EntityDescriptor><!-- a note --><md:SPSSODescriptor/><!-- another --></md:EntityDescriptor>";
    let d = EntityDescriptor::from_xml(xml).unwrap();
    assert_eq!(d.sp_sso_descriptors.map(|v| v.len()), Some(1));
}

#[test]
fn single_quoted_attribute_values_are_accepted() {
    let xml = "<md:EntityDescriptor entityID='urn:sq'><md:ContactPerson contactType='other'/></md:EntityDescriptor>";
    let d = EntityDescriptor::from_xml(xml).unwrap();
    assert_eq!(d.entity_id, Some(String::from("urn:sq")));
    assert_eq!(
        d.contact_person,
        Some(ContactPerson { contact_type: Some(String::from("other")) })
    );
}

#[test]
fn comments_inside_unknown_elements_are_ignored() {
    let xml = "<md:EntityDescriptor><md:Extensions><!-- note --><x/></md:Extensions><md:SPSSODescriptor/></md:EntityDescriptor>";
    let d = EntityDescriptor::from_xml(xml).unwrap();
    assert_eq!(d.sp_sso_descriptors.map(|v| v.len()), Some(1));
}

#[test]
fn mismatched_unknown_end_tag_is_a_syntax_error() {
    let xml = "<md:EntityDescriptor><a><b></a></b></md:EntityDescriptor>";
    assert_eq!(EntityDescriptor::from_xml(xml), Err(MetadataError::SyntaxError));
}
