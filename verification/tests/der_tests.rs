//! Tests of the DER reader's primitives: framing, canonicality, tags.

use windows_ctl::der::{
    read_bool, read_header, read_integer, read_oid, DerError, Identifier, Tag,
};

fn oid_from_dotted(s: &str) -> Identifier {
    let arcs: Vec<u64> = s.split('.').map(|p| p.parse().unwrap()).collect();
    Identifier::from_components(&arcs).unwrap()
}

#[test]
fn boolean_canonical_values() {
    let t = vec![0x01, 0x01, 0xFF];
    assert_eq!(read_bool(&t, 0, 3), Ok((true, 3)));
    let f = vec![0x01, 0x01, 0x00];
    assert_eq!(read_bool(&f, 0, 3), Ok((false, 3)));
}

#[test]
fn boolean_noncanonical_rejected() {
    let b = vec![0x01, 0x01, 0x01];
    assert_eq!(read_bool(&b, 0, 3), Err(DerError::InvalidBoolean(2)));
}

#[test]
fn integer_minimal_accepted() {
    let b = vec![0x02, 0x02, 0x01, 0x00];
    let (content, used) = read_integer(&b, 0, 4).unwrap();
    assert_eq!(content, vec![0x01, 0x00]);
    assert_eq!(used, 4);
    // a leading zero is canonical when the next byte has its high bit set
    let c = vec![0x02, 0x02, 0x00, 0x80];
    assert!(read_integer(&c, 0, 4).is_ok());
}

#[test]
fn integer_nonminimal_rejected() {
    let b = vec![0x02, 0x02, 0x00, 0x05];
    assert_eq!(read_integer(&b, 0, 4), Err(DerError::NonCanonicalInteger(2)));
    let c = vec![0x02, 0x02, 0xFF, 0x80];
    assert_eq!(read_integer(&c, 0, 4), Err(DerError::NonCanonicalInteger(2)));
}

#[test]
fn oid_decodes_to_content_octets() {
    let b = vec![0x06, 0x03, 0x2A, 0x03, 0x04];
    let (id, used) = read_oid(&b, 0, 5).unwrap();
    assert_eq!(id, oid_from_dotted("1.2.3.4"));
    assert_eq!(used, 5);
}

#[test]
fn oid_bad_base128_rejected() {
    // ends in the middle of a base-128 group
    let b = vec![0x06, 0x02, 0x2A, 0x83];
    assert_eq!(read_oid(&b, 0, 4), Err(DerError::InvalidOid(2)));
    // redundant leading 0x80 in a group
    let c = vec![0x06, 0x03, 0x2A, 0x80, 0x01];
    assert_eq!(read_oid(&c, 0, 5), Err(DerError::InvalidOid(2)));
}

#[test]
fn length_nonminimal_rejected() {
    // long form used where short form suffices
    let b = vec![0x04, 0x81, 0x05, 1, 2, 3, 4, 5];
    assert_eq!(read_header(&b, 0, 8), Err(DerError::NonMinimalLength(1)));
    // indefinite length is not DER
    let c = vec![0x30, 0x80, 0x00, 0x00];
    assert_eq!(read_header(&c, 0, 4), Err(DerError::NonMinimalLength(1)));
}

#[test]
fn length_long_form_accepted() {
    let mut b = vec![0x04, 0x81, 0x80];
    b.extend_from_slice(&[0x55; 128]);
    let (t, cs, ce) = read_header(&b, 0, 131).unwrap();
    assert_eq!(
        t,
        Tag { class: 0, constructed: false, number: 4 }
    );
    assert_eq!((cs, ce), (3, 131));
}

#[test]
fn truncated_content_rejected() {
    let b = vec![0x04, 0x05, 1, 2];
    assert_eq!(read_header(&b, 0, 4), Err(DerError::Truncated(1)));
}

#[test]
fn high_tag_number_form() {
    let b = vec![0x1F, 0x81, 0x00, 0x00];
    let (t, cs, ce) = read_header(&b, 0, 4).unwrap();
    assert_eq!(
        t,
        Tag { class: 0, constructed: false, number: 128 }
    );
    assert_eq!((cs, ce), (4, 4));
}

#[test]
fn high_tag_number_nonminimal_rejected() {
    // a leading 0x80 extension byte is redundant
    let b = vec![0x1F, 0x80, 0x01, 0x00];
    assert_eq!(read_header(&b, 0, 4), Err(DerError::InvalidTag(1)));
    // the high form must not encode a number the low form can hold
    let c = vec![0x1F, 0x1E, 0x00];
    assert_eq!(read_header(&c, 0, 3), Err(DerError::InvalidTag(0)));
}

#[test]
fn identifier_components_round_trip() {
    let arcs: Vec<u64> = vec![1, 3, 6, 1, 4, 1, 311, 10, 1];
    let id = Identifier::from_components(&arcs).unwrap();
    assert_eq!(id.components(), Some(arcs));
    let edge = Identifier::from_components(&vec![0, 39]).unwrap();
    assert_eq!(edge.components(), Some(vec![0, 39]));
    let joint = Identifier::from_components(&vec![2, 999]).unwrap();
    assert_eq!(joint.components(), Some(vec![2, 999]));
}

#[test]
fn identifier_components_reject_malformed() {
    // a dangling continuation byte is not well-formed content
    let bad = Identifier { bytes: vec![0x2B, 0x83] };
    assert_eq!(bad.components(), None);
    // a group too large for a word
    let huge = Identifier {
        bytes: vec![0x2B, 0xFF, 0xFF, 0xFF, 0xFF, 0xFF, 0xFF, 0xFF, 0xFF, 0xFF, 0x7F],
    };
    assert_eq!(huge.components(), None);
}

#[test]
fn identifier_from_components() {
    let id = oid_from_dotted("1.3.6.1.5.5.7.3.2");
    assert_eq!(id.bytes, vec![0x2B, 0x06, 0x01, 0x05, 0x05, 0x07, 0x03, 0x02]);
    let big = oid_from_dotted("2.999.311");
    assert_eq!(big.bytes, vec![0x88, 0x37, 0x82, 0x37]);
    assert_eq!(Identifier::from_components(&vec![3, 1]), None);
    assert_eq!(Identifier::from_components(&vec![1, 40]), None);
    assert_eq!(Identifier::from_components(&vec![1]), None);
}
