//! The object identifiers this library interprets.

use vstd::prelude::*;
use crate::der::Identifier;

verus! {

/// Content octets of the PKCS#7 signedData content type, 1.2.840.113549.1.7.2.
pub open spec fn oid_signed_data() -> Seq<u8> {
    seq![0x2Au8, 0x86u8, 0x48u8, 0x86u8, 0xF7u8, 0x0Du8, 0x01u8, 0x07u8, 0x02u8]
}

/// Content octets of the certificate trust list content type,
/// 1.3.6.1.4.1.311.10.1.
pub open spec fn oid_cert_trust_list() -> Seq<u8> {
    seq![0x2Bu8, 0x06u8, 0x01u8, 0x04u8, 0x01u8, 0x82u8, 0x37u8, 0x0Au8, 0x01u8]
}

/// Content octets of the attribute that lists extended key usages,
/// 1.3.6.1.4.1.311.10.11.9.
pub open spec fn oid_metaekus() -> Seq<u8> {
    seq![0x2Bu8, 0x06u8, 0x01u8, 0x04u8, 0x01u8, 0x82u8, 0x37u8, 0x0Au8, 0x0Bu8, 0x09u8]
}

/// The PKCS#7 signedData content type as a value.
pub fn signed_data_oid() -> (r: Identifier)
    ensures
        r@ == oid_signed_data(),
{
    let bytes: Vec<u8> = vec![0x2A, 0x86, 0x48, 0x86, 0xF7, 0x0D, 0x01, 0x07, 0x02];
    proof {
        assert(bytes@ =~= oid_signed_data());
    }
    Identifier { bytes }
}

/// The object identifier of a certificate trust list, as a value.
pub fn ms_cert_trust_list_oid() -> (r: Identifier)
    ensures
        r@ == oid_cert_trust_list(),
{
    let bytes: Vec<u8> = vec![0x2B, 0x06, 0x01, 0x04, 0x01, 0x82, 0x37, 0x0A, 0x01];
    proof {
        assert(bytes@ =~= oid_cert_trust_list());
    }
    Identifier { bytes }
}

/// The object identifier of the attribute carrying extended key usages, as
/// a value.
pub fn ms_cert_prop_id_metaekus_oid() -> (r: Identifier)
    ensures
        r@ == oid_metaekus(),
{
    let bytes: Vec<u8> = vec![0x2B, 0x06, 0x01, 0x04, 0x01, 0x82, 0x37, 0x0A, 0x0B, 0x09];
    proof {
        assert(bytes@ =~= oid_metaekus());
    }
    Identifier { bytes }
}

} // verus!
