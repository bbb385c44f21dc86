//! Tests of the envelope, the trust-list schema, the usage extractor and
//! the purpose filter.

use windows_ctl::ctl::{
    decode_ctl, AlgorithmIdentifier, Attribute, CertificateTrustList, CtlVersion, Time, TimeKind,
    TrustedSubject,
};
use windows_ctl::der::{DerError, Identifier, RawValue, Tag};
use windows_ctl::eku::decode_meta_eku;
use windows_ctl::error::CtlError;
use windows_ctl::filter::purpose_matches;
use windows_ctl::pkcs7::unwrap_signed_data;

const METAEKU: &[u8] = b"\x30\x1E\x06\x08\x2B\x06\x01\x05\x05\x07\x03\x02\x06\x08\x2B\x06\x01\x05\x05\x07\x03\x04\x06\x08\x2B\x06\x01\x05\x05\x07\x03\x01";

fn oid_from_dotted(s: &str) -> Identifier {
    let arcs: Vec<u64> = s.split('.').map(|p| p.parse().unwrap()).collect();
    Identifier::from_components(&arcs).unwrap()
}

fn tlv(tag: u8, content: &[u8]) -> Vec<u8> {
    let mut out = vec![tag];
    let n = content.len();
    if n < 128 {
        out.push(n as u8);
    } else if n < 256 {
        out.push(0x81);
        out.push(n as u8);
    } else {
        out.push(0x82);
        out.push((n >> 8) as u8);
        out.push((n & 0xFF) as u8);
    }
    out.extend_from_slice(content);
    out
}

fn oid_tlv(s: &str) -> Vec<u8> {
    tlv(0x06, &oid_from_dotted(s).bytes)
}

/// A minimal trust-list document: no version, empty subject usage, one
/// this-update time, a bare algorithm, and the given trusted subjects.
fn minimal_ctl_der(subjects: &[u8]) -> Vec<u8> {
    let mut fields = Vec::new();
    fields.extend_from_slice(&tlv(0x30, &[]));
    fields.extend_from_slice(&tlv(0x17, b"230102030405Z"));
    fields.extend_from_slice(&tlv(0x30, &oid_tlv("1.3.14.3.2.26")));
    if !subjects.is_empty() {
        fields.extend_from_slice(&tlv(0x30, subjects));
    }
    tlv(0x30, &fields)
}

/// Wraps encapsulated content bytes into a signedData envelope.
fn envelope(e_content_type: &str, e_content: Option<&[u8]>) -> Vec<u8> {
    let mut encap = oid_tlv(e_content_type);
    if let Some(inner) = e_content {
        encap.extend_from_slice(&tlv(0xA0, inner));
    }
    let mut sd = Vec::new();
    sd.extend_from_slice(&tlv(0x02, &[0x01]));
    sd.extend_from_slice(&tlv(0x31, &[]));
    sd.extend_from_slice(&tlv(0x30, &encap));
    sd.extend_from_slice(&tlv(0x31, &[]));
    let mut ci = oid_tlv("1.2.840.113549.1.7.2");
    ci.extend_from_slice(&tlv(0xA0, &tlv(0x30, &sd)));
    tlv(0x30, &ci)
}

#[test]
fn test_metaeku() {
    let res = decode_meta_eku(&METAEKU.to_vec()).unwrap();
    assert_eq!(res.len(), 3);
    assert_eq!(res[0], oid_from_dotted("1.3.6.1.5.5.7.3.2"));
    assert_eq!(res[1], oid_from_dotted("1.3.6.1.5.5.7.3.4"));
    assert_eq!(res[2], oid_from_dotted("1.3.6.1.5.5.7.3.1"));
}

#[test]
fn metaeku_malformed_rejected() {
    let garbage = vec![0x30, 0x02, 0xFF, 0xFF];
    assert!(decode_meta_eku(&garbage).is_err());
    let trailing = vec![0x30, 0x00, 0x00];
    assert_eq!(decode_meta_eku(&trailing), Err(DerError::TrailingBytes(2)));
}

#[test]
fn envelope_wrong_content_type() {
    // a ContentInfo carrying plain data instead of signedData
    let mut ci = oid_tlv("1.2.840.113549.1.7.1");
    ci.extend_from_slice(&tlv(0xA0, &tlv(0x04, &[0x00])));
    let doc = tlv(0x30, &ci);
    assert_eq!(
        unwrap_signed_data(&doc),
        Err(CtlError::ContentType(oid_from_dotted("1.2.840.113549.1.7.1")))
    );
}

#[test]
fn envelope_missing_signed_data() {
    let doc = tlv(0x30, &oid_tlv("1.2.840.113549.1.7.2"));
    assert_eq!(unwrap_signed_data(&doc), Err(CtlError::MissingSignedData));
}

#[test]
fn envelope_wrong_inner_content_type() {
    let doc = envelope("1.2.840.113549.1.7.1", Some(&minimal_ctl_der(&[])));
    assert_eq!(
        CertificateTrustList::from_der(&doc),
        Err(CtlError::Content(oid_from_dotted("1.2.840.113549.1.7.1")))
    );
}

#[test]
fn envelope_missing_inner_content() {
    let doc = envelope("1.3.6.1.4.1.311.10.1", None);
    assert_eq!(
        CertificateTrustList::from_der(&doc),
        Err(CtlError::MissingSignedDataContent)
    );
}

#[test]
fn end_to_end_single_subject() {
    let mut id = vec![0xAA, 0xBB, 0xCC];
    id.extend_from_slice(&[0x00; 17]);
    let subject = tlv(0x30, &tlv(0x04, &id));
    let doc = envelope("1.3.6.1.4.1.311.10.1", Some(&minimal_ctl_der(&subject)));
    let ctl = CertificateTrustList::from_der(&doc).unwrap();
    let subjects = ctl.trusted_subjects.as_ref().unwrap();
    assert_eq!(subjects.len(), 1);
    let expected_hex = String::from("aabbcc") + &"00".repeat(17);
    assert_eq!(subjects[0].cert_id_hex(), expected_hex);
    assert_eq!(subjects[0].cert_id(), &id);
    assert_eq!(subjects[0].extended_key_usages().unwrap(), Vec::<Identifier>::new());
}

#[test]
fn truncation_of_valid_document_fails() {
    let mut id = vec![0xAA, 0xBB, 0xCC];
    id.extend_from_slice(&[0x00; 17]);
    let subject = tlv(0x30, &tlv(0x04, &id));
    let doc = envelope("1.3.6.1.4.1.311.10.1", Some(&minimal_ctl_der(&subject)));
    assert!(CertificateTrustList::from_der(&doc).is_ok());
    for n in 1..doc.len() {
        let prefix: Vec<u8> = doc[..n].to_vec();
        let r = CertificateTrustList::from_der(&prefix);
        assert!(matches!(r, Err(CtlError::Der(DerError::Truncated(_)))));
    }
}

#[test]
fn trailing_bytes_rejected() {
    let mut doc = envelope("1.3.6.1.4.1.311.10.1", Some(&minimal_ctl_der(&[])));
    doc.push(0x00);
    let r = CertificateTrustList::from_der(&doc);
    assert!(matches!(r, Err(CtlError::Der(DerError::TrailingBytes(_)))));
}

fn rich_ctl() -> CertificateTrustList {
    CertificateTrustList {
        version: CtlVersion::V1,
        subject_usage: vec![oid_from_dotted("1.3.6.1.4.1.311.10.3.9")],
        list_identifier: Some(vec![0x4C, 0x00]),
        sequence_number: Some(vec![0x01, 0x02, 0x03]),
        this_update: Time { kind: TimeKind::Utc, value: b"230102030405Z".to_vec() },
        next_update: Some(Time {
            kind: TimeKind::Generalized,
            value: b"20230102030405Z".to_vec(),
        }),
        subject_algorithm: AlgorithmIdentifier {
            oid: oid_from_dotted("1.3.14.3.2.26"),
            params: Some(RawValue {
                tag: Tag { class: 0, constructed: false, number: 5 },
                content: vec![],
            }),
        },
        trusted_subjects: Some(vec![
            TrustedSubject { identifier: vec![0xAA; 20], attributes: None },
            TrustedSubject {
                identifier: vec![0xBB; 20],
                attributes: Some(vec![Attribute {
                    oid: oid_from_dotted("1.3.6.1.4.1.311.10.11.9"),
                    values: vec![RawValue {
                        tag: Tag { class: 0, constructed: false, number: 4 },
                        content: METAEKU.to_vec(),
                    }],
                }]),
            },
        ]),
        ctl_extensions: Some(RawValue {
            tag: Tag { class: 0, constructed: true, number: 16 },
            content: vec![],
        }),
    }
}

#[test]
fn round_trip_rich_value() {
    let ctl = rich_ctl();
    let enc = ctl.to_der();
    let dec = decode_ctl(&enc).unwrap();
    assert_eq!(dec, ctl);
}

#[test]
fn round_trip_minimal_value() {
    let ctl = CertificateTrustList {
        version: CtlVersion::V1,
        subject_usage: vec![],
        list_identifier: None,
        sequence_number: None,
        this_update: Time { kind: TimeKind::Utc, value: b"230102030405Z".to_vec() },
        next_update: None,
        subject_algorithm: AlgorithmIdentifier {
            oid: oid_from_dotted("1.3.14.3.2.26"),
            params: None,
        },
        trusted_subjects: None,
        ctl_extensions: None,
    };
    let enc = ctl.to_der();
    let dec = decode_ctl(&enc).unwrap();
    assert_eq!(dec, ctl);
}

#[test]
fn default_version_reencodes_as_absent() {
    // a document that writes the version explicitly still decodes, and
    // the canonical re-encoding omits it
    let mut fields = tlv(0x02, &[0x00]);
    fields.extend_from_slice(&tlv(0x30, &[]));
    fields.extend_from_slice(&tlv(0x17, b"230102030405Z"));
    fields.extend_from_slice(&tlv(0x30, &oid_tlv("1.3.14.3.2.26")));
    let doc = tlv(0x30, &fields);
    let dec = decode_ctl(&doc).unwrap();
    assert_eq!(dec.version, CtlVersion::V1);
    let reenc = dec.to_der();
    assert_eq!(reenc.len(), doc.len() - 3);
    assert_eq!(decode_ctl(&reenc).unwrap(), dec);
}

#[test]
fn unsupported_version_rejected() {
    let mut fields = tlv(0x02, &[0x02]);
    fields.extend_from_slice(&tlv(0x30, &[]));
    fields.extend_from_slice(&tlv(0x17, b"230102030405Z"));
    fields.extend_from_slice(&tlv(0x30, &oid_tlv("1.3.14.3.2.26")));
    let doc = tlv(0x30, &fields);
    assert_eq!(decode_ctl(&doc), Err(DerError::UnsupportedValue(2)));
}

#[test]
fn malformed_time_rejected() {
    let mut fields = tlv(0x30, &[]);
    fields.extend_from_slice(&tlv(0x17, b"2301020304Z"));
    fields.extend_from_slice(&tlv(0x30, &oid_tlv("1.3.14.3.2.26")));
    let doc = tlv(0x30, &fields);
    assert!(matches!(decode_ctl(&doc), Err(DerError::InvalidTime(_))));
}

#[test]
fn empty_attribute_set_rejected() {
    // a subject whose attribute holds an empty value SET
    let attr = tlv(0x30, &{
        let mut a = oid_tlv("1.3.6.1.4.1.311.10.11.9");
        a.extend_from_slice(&tlv(0x31, &[]));
        a
    });
    let subject = tlv(0x30, &{
        let mut s = tlv(0x04, &[0xAA; 20]);
        s.extend_from_slice(&tlv(0x31, &attr));
        s
    });
    let doc = minimal_ctl_der(&subject);
    assert!(matches!(decode_ctl(&doc), Err(DerError::EmptySet(_))));
}

#[test]
fn eku_extraction_order() {
    let subject = TrustedSubject {
        identifier: vec![0xAB; 20],
        attributes: Some(vec![Attribute {
            oid: oid_from_dotted("1.3.6.1.4.1.311.10.11.9"),
            values: vec![RawValue {
                tag: Tag { class: 0, constructed: false, number: 4 },
                content: METAEKU.to_vec(),
            }],
        }]),
    };
    let ekus = subject.extended_key_usages().unwrap();
    assert_eq!(
        ekus,
        vec![
            oid_from_dotted("1.3.6.1.5.5.7.3.2"),
            oid_from_dotted("1.3.6.1.5.5.7.3.4"),
            oid_from_dotted("1.3.6.1.5.5.7.3.1"),
        ]
    );
}

#[test]
fn eku_other_attributes_ignored() {
    let subject = TrustedSubject {
        identifier: vec![0xAB; 20],
        attributes: Some(vec![Attribute {
            oid: oid_from_dotted("1.3.6.1.4.1.311.10.11.11"),
            values: vec![RawValue {
                tag: Tag { class: 0, constructed: false, number: 4 },
                content: vec![0xFF],
            }],
        }]),
    };
    assert_eq!(subject.extended_key_usages().unwrap(), Vec::<Identifier>::new());
}

#[test]
fn eku_nested_failure_reported() {
    let subject = TrustedSubject {
        identifier: vec![0xAB; 20],
        attributes: Some(vec![Attribute {
            oid: oid_from_dotted("1.3.6.1.4.1.311.10.11.9"),
            values: vec![RawValue {
                tag: Tag { class: 0, constructed: false, number: 4 },
                content: vec![0x30],
            }],
        }]),
    };
    assert!(matches!(
        subject.extended_key_usages(),
        Err(CtlError::NestedDer(_))
    ));
}

#[test]
fn empty_subject_list_is_present_not_absent() {
    // trustedSubjects written as an empty SEQUENCE is present and empty,
    // distinct from the field being absent
    let doc_with = minimal_ctl_der(&[]);
    let dec_absent = decode_ctl(&doc_with).unwrap();
    assert_eq!(dec_absent.trusted_subjects, None);

    let mut fields = Vec::new();
    fields.extend_from_slice(&tlv(0x30, &[]));
    fields.extend_from_slice(&tlv(0x17, b"230102030405Z"));
    fields.extend_from_slice(&tlv(0x30, &oid_tlv("1.3.14.3.2.26")));
    fields.extend_from_slice(&tlv(0x30, &[]));
    let doc_empty = tlv(0x30, &fields);
    let dec_empty = decode_ctl(&doc_empty).unwrap();
    assert_eq!(dec_empty.trusted_subjects, Some(vec![]));

    // both shapes survive a round trip
    assert_eq!(decode_ctl(&dec_empty.to_der()).unwrap(), dec_empty);
    assert_eq!(decode_ctl(&dec_absent.to_der()).unwrap(), dec_absent);
}

#[test]
fn empty_attribute_list_round_trips() {
    // a subject with a present but empty attribute SET
    let subject = TrustedSubject { identifier: vec![0xCD; 20], attributes: Some(vec![]) };
    let ctl = CertificateTrustList {
        version: CtlVersion::V1,
        subject_usage: vec![],
        list_identifier: None,
        sequence_number: None,
        this_update: Time { kind: TimeKind::Utc, value: b"230102030405Z".to_vec() },
        next_update: None,
        subject_algorithm: AlgorithmIdentifier {
            oid: oid_from_dotted("1.3.14.3.2.26"),
            params: None,
        },
        trusted_subjects: Some(vec![subject]),
        ctl_extensions: None,
    };
    let dec = decode_ctl(&ctl.to_der()).unwrap();
    assert_eq!(dec, ctl);
    assert_eq!(dec.trusted_subjects.unwrap()[0].attributes, Some(vec![]));
}

#[test]
fn purpose_filter_semantics() {
    let a = oid_from_dotted("1.3.6.1.5.5.7.3.1");
    let b = oid_from_dotted("1.3.6.1.5.5.7.3.2");
    let c = oid_from_dotted("1.3.6.1.5.5.7.3.4");
    assert!(purpose_matches(&vec![], &vec![]));
    assert!(purpose_matches(&vec![a.clone()], &vec![]));
    assert!(!purpose_matches(&vec![a.clone()], &vec![b.clone()]));
    assert!(purpose_matches(&vec![a.clone(), b.clone()], &vec![b, c]));
}

#[test]
fn ctl_version_default_is_v1() {
    assert_eq!(CtlVersion::default(), CtlVersion::V1);
}

#[test]
fn cert_id_hex_is_lowercase_without_separators() {
    let subject = TrustedSubject { identifier: vec![0xDE, 0xAD, 0x0F, 0x01], attributes: None };
    assert_eq!(subject.cert_id_hex(), "dead0f01");
}

#[test]
fn error_description_available() {
    let e = CtlError::MissingSignedData;
    assert_eq!(e.describe(), "missing SignedData encapsulated content");
}
