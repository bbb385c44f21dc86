//! Verified decoding of Windows Certificate Trust Lists (CTLs).
//!
//! A CTL is a signed binary structure, distributed by Windows Update, that
//! enumerates certificates together with their permitted usages.  This crate
//! decodes the layered binary encoding of such a list: a DER reader
//! sufficient for the PKCS#7 `ContentInfo`/`SignedData` envelope and the
//! CTL's own schema, an extractor for per-certificate "extended key usage"
//! purpose lists, and the set-intersection filter consumers use to select
//! subjects by purpose.
//!
//! Every decoder is specified against a mathematical model of the encoding:
//! an executable decode call returns exactly what the corresponding
//! specification-level parse of the input bytes returns, and a canonical
//! encoder is proved to round-trip through the parser.

pub mod ctl;
pub mod der;
pub mod eku;
pub mod encode;
pub mod error;
pub mod filter;
pub mod hexenc;
pub mod laws;
pub mod oids;
pub mod pkcs7;
pub mod roundtrip;
