//! The certificate trust list schema: the `CertificateTrustList` SEQUENCE
//! and its nested `TrustedSubject` list, decoded field by field.
//!
//! ```text
//! CertificateTrustList ::= SEQUENCE {
//!   version CTLVersion DEFAULT v1,
//!   subjectUsage SEQUENCE OF OBJECT IDENTIFIER,
//!   listIdentifier OCTET STRING OPTIONAL,
//!   sequenceNumber INTEGER OPTIONAL,
//!   ctlThisUpdate ChoiceOfTime,
//!   ctlNextUpdate ChoiceOfTime OPTIONAL,
//!   subjectAlgorithm AlgorithmIdentifier,
//!   trustedSubjects SEQUENCE OF TrustedSubject OPTIONAL,
//!   ctlExtensions [0] EXPLICIT Extensions OPTIONAL
//! }
//! TrustedSubject ::= SEQUENCE {
//!   subjectIdentifier OCTET STRING,
//!   subjectAttributes SET OF Attribute OPTIONAL
//! }
//! Attribute ::= SEQUENCE {
//!   type OBJECT IDENTIFIER,
//!   values SET OF ANY
//! }
//! ```
//!
//! An optional field is present exactly when the next tag in the stream is
//! the field's expected tag; absence is inferred from a tag mismatch, never
//! from a sentinel.  The source order of trusted subjects and of attribute
//! values is preserved verbatim.

use vstd::prelude::*;
use crate::der::DerError;
use crate::der::Identifier;
use crate::der::RawValue;
use crate::der::RawValueView;
use crate::der::TAG_GENERALIZED_TIME;
use crate::der::TAG_INTEGER;
use crate::der::TAG_OCTET_STRING;
use crate::der::TAG_SEQUENCE;
use crate::der::TAG_SET;
use crate::der::TAG_UTC_TIME;
use crate::der::copy_range;
use crate::der::lemma_sp_header_bounds;
use crate::der::read_header;
use crate::der::read_integer;
use crate::der::read_octet_string;
use crate::der::read_oid;
use crate::der::read_raw;
use crate::der::sp_header;
use crate::der::sp_integer;
use crate::der::sp_octet_string;
use crate::der::sp_oid;
use crate::der::sp_raw;
use crate::der::uni_cons;
use crate::der::uni_prim;
use crate::der::ctx_cons;
use crate::error::CtlError;
use crate::error::CtlErrorView;
use crate::oids::oid_cert_trust_list;
use crate::oids::ms_cert_trust_list_oid;
use crate::pkcs7::sp_unwrap;
use crate::pkcs7::unwrap_signed_data;

verus! {

/// The version of a certificate trust list.  Only version 1 exists.
#[derive(Clone, Copy, Debug, PartialEq, Eq, Structural)]
pub enum CtlVersion {
    /// Version 1, encoded as the INTEGER 0 and the default.
    V1,
}

impl Default for CtlVersion {
    /// The default version is 1.
    fn default() -> (r: Self)
        ensures
            r == CtlVersion::V1,
    {
        CtlVersion::V1
    }
}

/// Which calendar-time encoding a [`Time`] was decoded from.
#[derive(Clone, Copy, Debug, PartialEq, Eq, Structural)]
pub enum TimeKind {
    /// A UTCTime: `YYMMDDHHMMSSZ`.
    Utc,
    /// A GeneralizedTime: `YYYYMMDDHHMMSSZ`.
    Generalized,
}

/// A calendar time, kept as its content bytes together with the encoding
/// it used, so that the original precision survives a round trip.
#[derive(Clone, Debug, PartialEq, Eq)]
pub struct Time {
    /// The encoding the time was read from.
    pub kind: TimeKind,
    /// The content bytes: ASCII digits terminated by `Z`.
    pub value: Vec<u8>,
}

/// The mathematical model of a [`Time`].
pub struct TimeView {
    /// The encoding the time was read from.
    pub kind: TimeKind,
    /// The content bytes.
    pub value: Seq<u8>,
}

impl View for Time {
    type V = TimeView;

    open spec fn view(&self) -> TimeView {
        TimeView { kind: self.kind, value: self.value@ }
    }
}

/// An algorithm identifier: an object identifier and its optional,
/// unmodelled parameters.
#[derive(Clone, Debug, PartialEq)]
pub struct AlgorithmIdentifier {
    /// The algorithm's object identifier.
    pub oid: Identifier,
    /// The algorithm's parameters, kept undecoded.
    pub params: Option<RawValue>,
}

/// The mathematical model of an [`AlgorithmIdentifier`].
pub struct AlgorithmIdentifierView {
    /// The algorithm's object identifier.
    pub oid: Seq<u8>,
    /// The algorithm's parameters, kept undecoded.
    pub params: Option<RawValueView>,
}

impl View for AlgorithmIdentifier {
    type V = AlgorithmIdentifierView;

    open spec fn view(&self) -> AlgorithmIdentifierView {
        AlgorithmIdentifierView {
            oid: self.oid@,
            params: match self.params {
                Some(rv) => Some(rv@),
                None => None,
            },
        }
    }
}

/// One attribute attached to a trusted subject: its type, and its values
/// kept undecoded in source order.  The value set is non-empty by
/// construction.
#[derive(Clone, Debug, PartialEq)]
pub struct Attribute {
    /// The attribute type.
    pub oid: Identifier,
    /// The attribute's values, undecoded, in source order; never empty.
    pub values: Vec<RawValue>,
}

/// The mathematical model of an [`Attribute`].
pub struct AttributeView {
    /// The attribute type.
    pub oid: Seq<u8>,
    /// The attribute's values, undecoded, in source order.
    pub values: Seq<RawValueView>,
}

impl View for Attribute {
    type V = AttributeView;

    open spec fn view(&self) -> AttributeView {
        AttributeView { oid: self.oid@, values: self.values@.map_values(|x: RawValue| x@) }
    }
}

/// One entry of the trust list: a certificate fingerprint and the
/// attributes attached to it.  Fingerprints are not guaranteed unique
/// across a list.
#[derive(Clone, Debug, PartialEq)]
pub struct TrustedSubject {
    /// The subject's identifier: an opaque certificate fingerprint,
    /// typically twenty bytes.
    pub identifier: Vec<u8>,
    /// The attributes attached to this subject, in source order, if the
    /// optional attribute set was present.
    pub attributes: Option<Vec<Attribute>>,
}

/// The mathematical model of a [`TrustedSubject`].
pub struct TrustedSubjectView {
    /// The subject's identifier.
    pub identifier: Seq<u8>,
    /// The attributes attached to this subject, if present.
    pub attributes: Option<Seq<AttributeView>>,
}

impl View for TrustedSubject {
    type V = TrustedSubjectView;

    open spec fn view(&self) -> TrustedSubjectView {
        TrustedSubjectView {
            identifier: self.identifier@,
            attributes: match self.attributes {
                Some(ref v) => Some(v@.map_values(|x: Attribute| x@)),
                None => None,
            },
        }
    }
}

/// A decoded certificate trust list.
#[derive(Clone, Debug, PartialEq)]
pub struct CertificateTrustList {
    /// The trust list's version; only version 1 exists.
    pub version: CtlVersion,
    /// The usage identifiers of the whole list.
    pub subject_usage: Vec<Identifier>,
    /// An opaque list identifier, if present.
    pub list_identifier: Option<Vec<u8>>,
    /// A big-integer sequence number, kept as its minimal two's-complement
    /// content bytes, if present.
    pub sequence_number: Option<Vec<u8>>,
    /// When this list was produced.
    pub this_update: Time,
    /// When the next list is expected, if announced.
    pub next_update: Option<Time>,
    /// The algorithm that produced the subject identifiers.
    pub subject_algorithm: AlgorithmIdentifier,
    /// The trusted subjects, in source order, if present.
    pub trusted_subjects: Option<Vec<TrustedSubject>>,
    /// X.509-style extensions, kept undecoded, if present.
    pub ctl_extensions: Option<RawValue>,
}

/// The mathematical model of a [`CertificateTrustList`].
pub struct CertificateTrustListView {
    /// The trust list's version.
    pub version: CtlVersion,
    /// The usage identifiers of the whole list.
    pub subject_usage: Seq<Seq<u8>>,
    /// An opaque list identifier, if present.
    pub list_identifier: Option<Seq<u8>>,
    /// The sequence number's content bytes, if present.
    pub sequence_number: Option<Seq<u8>>,
    /// When this list was produced.
    pub this_update: TimeView,
    /// When the next list is expected, if announced.
    pub next_update: Option<TimeView>,
    /// The algorithm that produced the subject identifiers.
    pub subject_algorithm: AlgorithmIdentifierView,
    /// The trusted subjects, in source order, if present.
    pub trusted_subjects: Option<Seq<TrustedSubjectView>>,
    /// X.509-style extensions, kept undecoded, if present.
    pub ctl_extensions: Option<RawValueView>,
}

impl View for CertificateTrustList {
    type V = CertificateTrustListView;

    open spec fn view(&self) -> CertificateTrustListView {
        CertificateTrustListView {
            version: self.version,
            subject_usage: self.subject_usage@.map_values(|x: Identifier| x@),
            list_identifier: match self.list_identifier {
                Some(ref v) => Some(v@),
                None => None,
            },
            sequence_number: match self.sequence_number {
                Some(ref v) => Some(v@),
                None => None,
            },
            this_update: self.this_update@,
            next_update: match self.next_update {
                Some(ref t) => Some(t@),
                None => None,
            },
            subject_algorithm: self.subject_algorithm@,
            trusted_subjects: match self.trusted_subjects {
                Some(ref v) => Some(v@.map_values(|x: TrustedSubject| x@)),
                None => None,
            },
            ctl_extensions: match self.ctl_extensions {
                Some(rv) => Some(rv@),
                None => None,
            },
        }
    }
}

/// Canonical DER content for a time of the given kind: thirteen bytes for
/// UTCTime, fifteen for GeneralizedTime, digits terminated by `Z`.
pub open spec fn time_content_ok(kind: TimeKind, c: Seq<u8>) -> bool {
    &&& c.len() == (if kind is Utc {
        13int
    } else {
        15int
    })
    &&& c[c.len() - 1] == 0x5A
    &&& forall|i: int| 0 <= i < c.len() - 1 ==> 0x30 <= #[trigger] c[i] <= 0x39
}

/// Specification parse of a `ChoiceOfTime` at `pos`: a UTCTime or a
/// GeneralizedTime in canonical form.
pub open spec fn sp_time(s: Seq<u8>, pos: int, end: int) -> Result<(TimeView, int), DerError> {
    match sp_header(s, pos, end) {
        Ok((t, cs, ce)) => {
            if t == uni_prim(TAG_UTC_TIME) || t == uni_prim(TAG_GENERALIZED_TIME) {
                let kind = if t == uni_prim(TAG_UTC_TIME) {
                    TimeKind::Utc
                } else {
                    TimeKind::Generalized
                };
                if time_content_ok(kind, s.subrange(cs, ce)) {
                    Ok((TimeView { kind, value: s.subrange(cs, ce) }, ce))
                } else {
                    Err(DerError::InvalidTime(cs as usize))
                }
            } else {
                Err(DerError::UnexpectedTag(pos as usize))
            }
        },
        Err(e) => Err(e),
    }
}

/// Checks [`time_content_ok`] on the bytes of `input` in `[cs, ce)`.
fn time_content_check(input: &Vec<u8>, cs: usize, ce: usize, kind: TimeKind) -> (r: bool)
    requires
        cs <= ce <= input@.len(),
    ensures
        r == time_content_ok(kind, input@.subrange(cs as int, ce as int)),
{
    let ghost c = input@.subrange(cs as int, ce as int);
    let want: usize = match kind {
        TimeKind::Utc => 13,
        TimeKind::Generalized => 15,
    };
    if ce - cs != want {
        return false;
    }
    if input[ce - 1] != 0x5A {
        proof {
            assert(c[c.len() - 1] == input@[ce - 1]);
        }
        return false;
    }
    let mut i: usize = cs;
    while i < ce - 1
        invariant
            cs <= i <= ce - 1,
            ce <= input@.len(),
            ce - cs == want,
            c == input@.subrange(cs as int, ce as int),
            forall|j: int| 0 <= j < i - cs ==> 0x30 <= #[trigger] c[j] <= 0x39,
        decreases ce - i,
    {
        let b = input[i];
        if b < 0x30 || b > 0x39 {
            proof {
                assert(c[i - cs] == input@[i as int]);
            }
            return false;
        }
        i = i + 1;
        proof {
            assert(c[i - 1 - cs] == input@[i - 1]);
        }
    }
    proof {
        assert(c[c.len() - 1] == input@[ce - 1]);
    }
    true
}

/// Reads a `ChoiceOfTime` at `pos`.
fn read_time(input: &Vec<u8>, pos: usize, end: usize) -> (r: Result<(Time, usize), DerError>)
    requires
        pos <= end <= input@.len(),
    ensures
        ({
            let sp = sp_time(input@, pos as int, end as int);
            match r {
                Ok((t, p)) => sp == Ok::<(TimeView, int), DerError>((t@, p as int)) && p <= end,
                Err(e) => sp == Err::<(TimeView, int), DerError>(e),
            }
        }),
{
    match read_header(input, pos, end) {
        Ok((t, cs, ce)) => {
            let is_utc = t.class == 0 && !t.constructed && t.number == TAG_UTC_TIME;
            let is_gen = t.class == 0 && !t.constructed && t.number == TAG_GENERALIZED_TIME;
            if !(is_utc || is_gen) {
                return Err(DerError::UnexpectedTag(pos));
            }
            let kind = if is_utc {
                TimeKind::Utc
            } else {
                TimeKind::Generalized
            };
            if !time_content_check(input, cs, ce, kind) {
                return Err(DerError::InvalidTime(cs));
            }
            let v = copy_range(input, cs, ce);
            Ok((Time { kind, value: v }, ce))
        },
        Err(e) => Err(e),
    }
}

/// Specification parse of an `AlgorithmIdentifier` at `pos`: a SEQUENCE of
/// an object identifier and optional, undecoded parameters.
pub open spec fn sp_algid(s: Seq<u8>, pos: int, end: int) -> Result<
    (AlgorithmIdentifierView, int),
    DerError,
> {
    match sp_header(s, pos, end) {
        Ok((t, cs, ce)) => {
            if t != uni_cons(TAG_SEQUENCE) {
                Err(DerError::UnexpectedTag(pos as usize))
            } else {
                match sp_oid(s, cs, ce) {
                    Ok((oid, p)) => {
                        if p == ce {
                            Ok((AlgorithmIdentifierView { oid, params: None }, ce))
                        } else {
                            match sp_raw(s, p, ce) {
                                Ok((rv, p2)) => {
                                    if p2 != ce {
                                        Err(DerError::TrailingBytes(p2 as usize))
                                    } else {
                                        Ok((AlgorithmIdentifierView { oid, params: Some(rv) }, ce))
                                    }
                                },
                                Err(e) => Err(e),
                            }
                        }
                    },
                    Err(e) => Err(e),
                }
            }
        },
        Err(e) => Err(e),
    }
}

/// Reads an `AlgorithmIdentifier` at `pos`.
fn read_algid(input: &Vec<u8>, pos: usize, end: usize) -> (r: Result<
    (AlgorithmIdentifier, usize),
    DerError,
>)
    requires
        pos <= end <= input@.len(),
    ensures
        ({
            let sp = sp_algid(input@, pos as int, end as int);
            match r {
                Ok((a, p)) => sp == Ok::<(AlgorithmIdentifierView, int), DerError>((a@, p as int))
                    && p <= end,
                Err(e) => sp == Err::<(AlgorithmIdentifierView, int), DerError>(e),
            }
        }),
{
    match read_header(input, pos, end) {
        Ok((t, cs, ce)) => {
            if !(t.class == 0 && t.constructed && t.number == TAG_SEQUENCE) {
                return Err(DerError::UnexpectedTag(pos));
            }
            match read_oid(input, cs, ce) {
                Ok((oid, p)) => {
                    if p == ce {
                        return Ok((AlgorithmIdentifier { oid, params: None }, ce));
                    }
                    match read_raw(input, p, ce) {
                        Ok((rv, p2)) => {
                            if p2 != ce {
                                return Err(DerError::TrailingBytes(p2));
                            }
                            Ok((AlgorithmIdentifier { oid, params: Some(rv) }, ce))
                        },
                        Err(e) => Err(e),
                    }
                },
                Err(e) => Err(e),
            }
        },
        Err(e) => Err(e),
    }
}

/// Specification parse of consecutive object identifiers filling
/// `[pos, end)`.
pub open spec fn sp_oid_list(s: Seq<u8>, pos: int, end: int) -> Result<Seq<Seq<u8>>, DerError>
    decreases end - pos,
    via sp_oid_list_dec
{
    if pos >= end {
        Ok(Seq::empty())
    } else {
        match sp_oid(s, pos, end) {
            Ok((o, p)) => match sp_oid_list(s, p, end) {
                Ok(rest) => Ok(seq![o] + rest),
                Err(e) => Err(e),
            },
            Err(e) => Err(e),
        }
    }
}

#[via_fn]
proof fn sp_oid_list_dec(s: Seq<u8>, pos: int, end: int) {
    lemma_sp_header_bounds(s, pos, end);
}

/// Specification parse of consecutive undecoded values filling
/// `[pos, end)`.
pub open spec fn sp_raw_list(s: Seq<u8>, pos: int, end: int) -> Result<Seq<RawValueView>, DerError>
    decreases end - pos,
    via sp_raw_list_dec
{
    if pos >= end {
        Ok(Seq::empty())
    } else {
        match sp_raw(s, pos, end) {
            Ok((rv, p)) => match sp_raw_list(s, p, end) {
                Ok(rest) => Ok(seq![rv] + rest),
                Err(e) => Err(e),
            },
            Err(e) => Err(e),
        }
    }
}

#[via_fn]
proof fn sp_raw_list_dec(s: Seq<u8>, pos: int, end: int) {
    lemma_sp_header_bounds(s, pos, end);
}

/// Reads consecutive object identifiers filling `[pos, end)`.
pub fn read_oid_list(input: &Vec<u8>, pos: usize, end: usize) -> (r: Result<Vec<Identifier>, DerError>)
    requires
        pos <= end <= input@.len(),
    ensures
        ({
            let sp = sp_oid_list(input@, pos as int, end as int);
            match r {
                Ok(v) => sp == Ok::<Seq<Seq<u8>>, DerError>(
                    v@.map_values(|x: Identifier| x@),
                ),
                Err(e) => sp == Err::<Seq<Seq<u8>>, DerError>(e),
            }
        }),
{
    let mut out: Vec<Identifier> = Vec::new();
    let mut p: usize = pos;
    while p < end
        invariant
            pos <= p <= end <= input@.len(),
            ({
                let whole = sp_oid_list(input@, pos as int, end as int);
                let rest = sp_oid_list(input@, p as int, end as int);
                match rest {
                    Ok(rs) => whole == Ok::<Seq<Seq<u8>>, DerError>(
                        out@.map_values(|x: Identifier| x@) + rs,
                    ),
                    Err(e) => whole == Err::<Seq<Seq<u8>>, DerError>(e),
                }
            }),
        decreases end - p,
    {
        match read_oid(input, p, end) {
            Ok((o, p2)) => {
                proof {
                    lemma_sp_header_bounds(input@, p as int, end as int);
                    let ghost old_views = out@.map_values(|x: Identifier| x@);
                    assert(old_views.push(o@) =~= out@.push(o).map_values(|x: Identifier| x@));
                    match sp_oid_list(input@, p2 as int, end as int) {
                        Ok(rs2) => {
                            assert(old_views + (seq![o@] + rs2) =~= old_views.push(o@) + rs2);
                        },
                        Err(_) => {},
                    }
                }
                out.push(o);
                p = p2;
            },
            Err(e) => {
                return Err(e);
            },
        }
    }
    proof {
        assert(sp_oid_list(input@, p as int, end as int) == Ok::<Seq<Seq<u8>>, DerError>(
            Seq::empty(),
        ));
        assert(out@.map_values(|x: Identifier| x@) + Seq::<Seq<u8>>::empty() =~= out@.map_values(
            |x: Identifier| x@,
        ));
    }
    Ok(out)
}

/// Reads consecutive undecoded values filling `[pos, end)`.
fn read_raw_list(input: &Vec<u8>, pos: usize, end: usize) -> (r: Result<Vec<RawValue>, DerError>)
    requires
        pos <= end <= input@.len(),
    ensures
        ({
            let sp = sp_raw_list(input@, pos as int, end as int);
            match r {
                Ok(v) => sp == Ok::<Seq<RawValueView>, DerError>(
                    v@.map_values(|x: RawValue| x@),
                ),
                Err(e) => sp == Err::<Seq<RawValueView>, DerError>(e),
            }
        }),
{
    let mut out: Vec<RawValue> = Vec::new();
    let mut p: usize = pos;
    while p < end
        invariant
            pos <= p <= end <= input@.len(),
            ({
                let whole = sp_raw_list(input@, pos as int, end as int);
                let rest = sp_raw_list(input@, p as int, end as int);
                match rest {
                    Ok(rs) => whole == Ok::<Seq<RawValueView>, DerError>(
                        out@.map_values(|x: RawValue| x@) + rs,
                    ),
                    Err(e) => whole == Err::<Seq<RawValueView>, DerError>(e),
                }
            }),
        decreases end - p,
    {
        match read_raw(input, p, end) {
            Ok((rv, p2)) => {
                proof {
                    lemma_sp_header_bounds(input@, p as int, end as int);
                    let ghost old_views = out@.map_values(|x: RawValue| x@);
                    assert(old_views.push(rv@) =~= out@.push(rv).map_values(|x: RawValue| x@));
                    match sp_raw_list(input@, p2 as int, end as int) {
                        Ok(rs2) => {
                            assert(old_views + (seq![rv@] + rs2) =~= old_views.push(rv@) + rs2);
                        },
                        Err(_) => {},
                    }
                }
                out.push(rv);
                p = p2;
            },
            Err(e) => {
                return Err(e);
            },
        }
    }
    proof {
        assert(sp_raw_list(input@, p as int, end as int) == Ok::<Seq<RawValueView>, DerError>(
            Seq::empty(),
        ));
        assert(out@.map_values(|x: RawValue| x@) + Seq::<RawValueView>::empty() =~= out@.map_values(
            |x: RawValue| x@,
        ));
    }
    Ok(out)
}

/// Specification parse of one attribute at `pos`: a SEQUENCE of a type and
/// a non-empty SET of undecoded values ending the SEQUENCE exactly.
pub open spec fn sp_attribute(s: Seq<u8>, pos: int, end: int) -> Result<
    (AttributeView, int),
    DerError,
> {
    match sp_header(s, pos, end) {
        Ok((t, cs, ce)) => {
            if t != uni_cons(TAG_SEQUENCE) {
                Err(DerError::UnexpectedTag(pos as usize))
            } else {
                match sp_oid(s, cs, ce) {
                    Ok((oid, p)) => {
                        match sp_header(s, p, ce) {
                            Ok((t2, cs2, ce2)) => {
                                if t2 != uni_cons(TAG_SET) {
                                    Err(DerError::UnexpectedTag(p as usize))
                                } else if ce2 != ce {
                                    Err(DerError::TrailingBytes(ce2 as usize))
                                } else {
                                    match sp_raw_list(s, cs2, ce2) {
                                        Ok(values) => {
                                            if values.len() == 0 {
                                                Err(DerError::EmptySet(cs2 as usize))
                                            } else {
                                                Ok((AttributeView { oid, values }, ce))
                                            }
                                        },
                                        Err(e) => Err(e),
                                    }
                                }
                            },
                            Err(e) => Err(e),
                        }
                    },
                    Err(e) => Err(e),
                }
            }
        },
        Err(e) => Err(e),
    }
}

/// On success, an attribute parse advances past at least its header.
pub proof fn lemma_sp_attribute_bounds(s: Seq<u8>, pos: int, end: int)
    ensures
        sp_attribute(s, pos, end) matches Ok((a, p)) ==> pos + 2 <= p <= end,
{
    lemma_sp_header_bounds(s, pos, end);
}

/// Reads one attribute at `pos`.
fn read_attribute(input: &Vec<u8>, pos: usize, end: usize) -> (r: Result<
    (Attribute, usize),
    DerError,
>)
    requires
        pos <= end <= input@.len(),
    ensures
        ({
            let sp = sp_attribute(input@, pos as int, end as int);
            match r {
                Ok((a, p)) => sp == Ok::<(AttributeView, int), DerError>((a@, p as int)) && p
                    <= end,
                Err(e) => sp == Err::<(AttributeView, int), DerError>(e),
            }
        }),
{
    match read_header(input, pos, end) {
        Ok((t, cs, ce)) => {
            if !(t.class == 0 && t.constructed && t.number == TAG_SEQUENCE) {
                return Err(DerError::UnexpectedTag(pos));
            }
            match read_oid(input, cs, ce) {
                Ok((oid, p)) => {
                    match read_header(input, p, ce) {
                        Ok((t2, cs2, ce2)) => {
                            if !(t2.class == 0 && t2.constructed && t2.number == TAG_SET) {
                                return Err(DerError::UnexpectedTag(p));
                            }
                            if ce2 != ce {
                                return Err(DerError::TrailingBytes(ce2));
                            }
                            match read_raw_list(input, cs2, ce2) {
                                Ok(values) => {
                                    if values.len() == 0 {
                                        return Err(DerError::EmptySet(cs2));
                                    }
                                    Ok((Attribute { oid, values }, ce))
                                },
                                Err(e) => Err(e),
                            }
                        },
                        Err(e) => Err(e),
                    }
                },
                Err(e) => Err(e),
            }
        },
        Err(e) => Err(e),
    }
}

/// Specification parse of consecutive attributes filling `[pos, end)`.
pub open spec fn sp_attr_list(s: Seq<u8>, pos: int, end: int) -> Result<
    Seq<AttributeView>,
    DerError,
>
    decreases end - pos,
    via sp_attr_list_dec
{
    if pos >= end {
        Ok(Seq::empty())
    } else {
        match sp_attribute(s, pos, end) {
            Ok((a, p)) => match sp_attr_list(s, p, end) {
                Ok(rest) => Ok(seq![a] + rest),
                Err(e) => Err(e),
            },
            Err(e) => Err(e),
        }
    }
}

#[via_fn]
proof fn sp_attr_list_dec(s: Seq<u8>, pos: int, end: int) {
    lemma_sp_attribute_bounds(s, pos, end);
}

/// Reads consecutive attributes filling `[pos, end)`.
fn read_attr_list(input: &Vec<u8>, pos: usize, end: usize) -> (r: Result<Vec<Attribute>, DerError>)
    requires
        pos <= end <= input@.len(),
    ensures
        ({
            let sp = sp_attr_list(input@, pos as int, end as int);
            match r {
                Ok(v) => sp == Ok::<Seq<AttributeView>, DerError>(
                    v@.map_values(|x: Attribute| x@),
                ),
                Err(e) => sp == Err::<Seq<AttributeView>, DerError>(e),
            }
        }),
{
    let mut out: Vec<Attribute> = Vec::new();
    let mut p: usize = pos;
    while p < end
        invariant
            pos <= p <= end <= input@.len(),
            ({
                let whole = sp_attr_list(input@, pos as int, end as int);
                let rest = sp_attr_list(input@, p as int, end as int);
                match rest {
                    Ok(rs) => whole == Ok::<Seq<AttributeView>, DerError>(
                        out@.map_values(|x: Attribute| x@) + rs,
                    ),
                    Err(e) => whole == Err::<Seq<AttributeView>, DerError>(e),
                }
            }),
        decreases end - p,
    {
        match read_attribute(input, p, end) {
            Ok((a, p2)) => {
                proof {
                    lemma_sp_attribute_bounds(input@, p as int, end as int);
                    let ghost old_views = out@.map_values(|x: Attribute| x@);
                    assert(old_views.push(a@) =~= out@.push(a).map_values(|x: Attribute| x@));
                    match sp_attr_list(input@, p2 as int, end as int) {
                        Ok(rs2) => {
                            assert(old_views + (seq![a@] + rs2) =~= old_views.push(a@) + rs2);
                        },
                        Err(_) => {},
                    }
                }
                out.push(a);
                p = p2;
            },
            Err(e) => {
                return Err(e);
            },
        }
    }
    proof {
        assert(sp_attr_list(input@, p as int, end as int) == Ok::<Seq<AttributeView>, DerError>(
            Seq::empty(),
        ));
        assert(out@.map_values(|x: Attribute| x@) + Seq::<AttributeView>::empty()
            =~= out@.map_values(|x: Attribute| x@));
    }
    Ok(out)
}

/// Specification parse of one trusted subject at `pos`: a SEQUENCE of an
/// OCTET STRING identifier and an optional SET of attributes ending the
/// SEQUENCE exactly.
pub open spec fn sp_subject(s: Seq<u8>, pos: int, end: int) -> Result<
    (TrustedSubjectView, int),
    DerError,
> {
    match sp_header(s, pos, end) {
        Ok((t, cs, ce)) => {
            if t != uni_cons(TAG_SEQUENCE) {
                Err(DerError::UnexpectedTag(pos as usize))
            } else {
                match sp_octet_string(s, cs, ce) {
                    Ok((ident, p)) => {
                        if p == ce {
                            Ok((TrustedSubjectView { identifier: ident, attributes: None }, ce))
                        } else {
                            match sp_header(s, p, ce) {
                                Ok((t2, cs2, ce2)) => {
                                    if t2 != uni_cons(TAG_SET) {
                                        Err(DerError::UnexpectedTag(p as usize))
                                    } else if ce2 != ce {
                                        Err(DerError::TrailingBytes(ce2 as usize))
                                    } else {
                                        match sp_attr_list(s, cs2, ce2) {
                                            Ok(attrs) => Ok(
                                                (
                                                    TrustedSubjectView {
                                                        identifier: ident,
                                                        attributes: Some(attrs),
                                                    },
                                                    ce,
                                                ),
                                            ),
                                            Err(e) => Err(e),
                                        }
                                    }
                                },
                                Err(e) => Err(e),
                            }
                        }
                    },
                    Err(e) => Err(e),
                }
            }
        },
        Err(e) => Err(e),
    }
}

/// On success, a subject parse advances past at least its header.
pub proof fn lemma_sp_subject_bounds(s: Seq<u8>, pos: int, end: int)
    ensures
        sp_subject(s, pos, end) matches Ok((v, p)) ==> pos + 2 <= p <= end,
{
    lemma_sp_header_bounds(s, pos, end);
}

/// Reads one trusted subject at `pos`.
fn read_subject(input: &Vec<u8>, pos: usize, end: usize) -> (r: Result<
    (TrustedSubject, usize),
    DerError,
>)
    requires
        pos <= end <= input@.len(),
    ensures
        ({
            let sp = sp_subject(input@, pos as int, end as int);
            match r {
                Ok((v, p)) => sp == Ok::<(TrustedSubjectView, int), DerError>((v@, p as int)) && p
                    <= end,
                Err(e) => sp == Err::<(TrustedSubjectView, int), DerError>(e),
            }
        }),
{
    match read_header(input, pos, end) {
        Ok((t, cs, ce)) => {
            if !(t.class == 0 && t.constructed && t.number == TAG_SEQUENCE) {
                return Err(DerError::UnexpectedTag(pos));
            }
            match read_octet_string(input, cs, ce) {
                Ok((ident, p)) => {
                    if p == ce {
                        return Ok((TrustedSubject { identifier: ident, attributes: None }, ce));
                    }
                    match read_header(input, p, ce) {
                        Ok((t2, cs2, ce2)) => {
                            if !(t2.class == 0 && t2.constructed && t2.number == TAG_SET) {
                                return Err(DerError::UnexpectedTag(p));
                            }
                            if ce2 != ce {
                                return Err(DerError::TrailingBytes(ce2));
                            }
                            match read_attr_list(input, cs2, ce2) {
                                Ok(attrs) => Ok(
                                    (
                                        TrustedSubject {
                                            identifier: ident,
                                            attributes: Some(attrs),
                                        },
                                        ce,
                                    ),
                                ),
                                Err(e) => Err(e),
                            }
                        },
                        Err(e) => Err(e),
                    }
                },
                Err(e) => Err(e),
            }
        },
        Err(e) => Err(e),
    }
}

/// Specification parse of consecutive trusted subjects filling
/// `[pos, end)`, preserving source order.
pub open spec fn sp_subject_list(s: Seq<u8>, pos: int, end: int) -> Result<
    Seq<TrustedSubjectView>,
    DerError,
>
    decreases end - pos,
    via sp_subject_list_dec
{
    if pos >= end {
        Ok(Seq::empty())
    } else {
        match sp_subject(s, pos, end) {
            Ok((v, p)) => match sp_subject_list(s, p, end) {
                Ok(rest) => Ok(seq![v] + rest),
                Err(e) => Err(e),
            },
            Err(e) => Err(e),
        }
    }
}

#[via_fn]
proof fn sp_subject_list_dec(s: Seq<u8>, pos: int, end: int) {
    lemma_sp_subject_bounds(s, pos, end);
}

/// Reads consecutive trusted subjects filling `[pos, end)`.
fn read_subject_list(input: &Vec<u8>, pos: usize, end: usize) -> (r: Result<
    Vec<TrustedSubject>,
    DerError,
>)
    requires
        pos <= end <= input@.len(),
    ensures
        ({
            let sp = sp_subject_list(input@, pos as int, end as int);
            match r {
                Ok(v) => sp == Ok::<Seq<TrustedSubjectView>, DerError>(
                    v@.map_values(|x: TrustedSubject| x@),
                ),
                Err(e) => sp == Err::<Seq<TrustedSubjectView>, DerError>(e),
            }
        }),
{
    let mut out: Vec<TrustedSubject> = Vec::new();
    let mut p: usize = pos;
    while p < end
        invariant
            pos <= p <= end <= input@.len(),
            ({
                let whole = sp_subject_list(input@, pos as int, end as int);
                let rest = sp_subject_list(input@, p as int, end as int);
                match rest {
                    Ok(rs) => whole == Ok::<Seq<TrustedSubjectView>, DerError>(
                        out@.map_values(|x: TrustedSubject| x@) + rs,
                    ),
                    Err(e) => whole == Err::<Seq<TrustedSubjectView>, DerError>(e),
                }
            }),
        decreases end - p,
    {
        match read_subject(input, p, end) {
            Ok((v, p2)) => {
                proof {
                    lemma_sp_subject_bounds(input@, p as int, end as int);
                    let ghost old_views = out@.map_values(|x: TrustedSubject| x@);
                    assert(old_views.push(v@) =~= out@.push(v).map_values(
                        |x: TrustedSubject| x@,
                    ));
                    match sp_subject_list(input@, p2 as int, end as int) {
                        Ok(rs2) => {
                            assert(old_views + (seq![v@] + rs2) =~= old_views.push(v@) + rs2);
                        },
                        Err(_) => {},
                    }
                }
                out.push(v);
                p = p2;
            },
            Err(e) => {
                return Err(e);
            },
        }
    }
    proof {
        assert(sp_subject_list(input@, p as int, end as int) == Ok::<
            Seq<TrustedSubjectView>,
            DerError,
        >(Seq::empty()));
        assert(out@.map_values(|x: TrustedSubject| x@) + Seq::<TrustedSubjectView>::empty()
            =~= out@.map_values(|x: TrustedSubject| x@));
    }
    Ok(out)
}

/// Specification parse of the DEFAULT-v1 version field at `pos`: present
/// exactly when the next tag is INTEGER, in which case its content must be
/// the single byte 0 (the only defined version); absent otherwise.
pub open spec fn sp_version(s: Seq<u8>, pos: int, end: int) -> Result<(CtlVersion, int), DerError> {
    match sp_header(s, pos, end) {
        Err(e) => Err(e),
        Ok((t0, cs0, ce0)) => {
            if t0 == uni_prim(TAG_INTEGER) {
                match sp_integer(s, pos, end) {
                    Ok((vc, p)) => {
                        if vc == seq![0u8] {
                            Ok((CtlVersion::V1, p))
                        } else {
                            Err(DerError::UnsupportedValue(pos as usize))
                        }
                    },
                    Err(e) => Err(e),
                }
            } else {
                Ok((CtlVersion::V1, pos))
            }
        },
    }
}

/// Reads the DEFAULT-v1 version field at `pos`.
fn read_version(input: &Vec<u8>, pos: usize, end: usize) -> (r: Result<
    (CtlVersion, usize),
    DerError,
>)
    requires
        pos <= end <= input@.len(),
    ensures
        ({
            let sp = sp_version(input@, pos as int, end as int);
            match r {
                Ok((v, p)) => sp == Ok::<(CtlVersion, int), DerError>((v, p as int)) && pos <= p
                    <= end,
                Err(e) => sp == Err::<(CtlVersion, int), DerError>(e),
            }
        }),
{
    match read_header(input, pos, end) {
        Err(e) => Err(e),
        Ok((t0, cs0, ce0)) => {
            if t0.class == 0 && !t0.constructed && t0.number == TAG_INTEGER {
                match read_integer(input, pos, end) {
                    Ok((vc, p)) => {
                        if vc.len() == 1 && vc[0] == 0 {
                            proof {
                                assert(vc@ =~= seq![0u8]);
                            }
                            Ok((CtlVersion::V1, p))
                        } else {
                            proof {
                                assert(vc@ != seq![0u8]);
                            }
                            Err(DerError::UnsupportedValue(pos))
                        }
                    },
                    Err(e) => Err(e),
                }
            } else {
                Ok((CtlVersion::V1, pos))
            }
        },
    }
}

/// Specification parse of an optional OCTET STRING at `pos`: present
/// exactly when the next tag is OCTET STRING.
pub open spec fn sp_opt_octets(s: Seq<u8>, pos: int, end: int) -> Result<
    (Option<Seq<u8>>, int),
    DerError,
> {
    match sp_header(s, pos, end) {
        Err(e) => Err(e),
        Ok((t, cs, ce)) => {
            if t == uni_prim(TAG_OCTET_STRING) {
                match sp_octet_string(s, pos, end) {
                    Ok((v, p)) => Ok((Some(v), p)),
                    Err(e) => Err(e),
                }
            } else {
                Ok((None, pos))
            }
        },
    }
}

/// Reads an optional OCTET STRING at `pos`.
fn read_opt_octets(input: &Vec<u8>, pos: usize, end: usize) -> (r: Result<
    (Option<Vec<u8>>, usize),
    DerError,
>)
    requires
        pos <= end <= input@.len(),
    ensures
        ({
            let sp = sp_opt_octets(input@, pos as int, end as int);
            match r {
                Ok((v, p)) => sp == Ok::<(Option<Seq<u8>>, int), DerError>(
                    (
                        match v {
                            Some(ref b) => Some(b@),
                            None => None,
                        },
                        p as int,
                    ),
                ) && pos <= p <= end,
                Err(e) => sp == Err::<(Option<Seq<u8>>, int), DerError>(e),
            }
        }),
{
    match read_header(input, pos, end) {
        Err(e) => Err(e),
        Ok((t, cs, ce)) => {
            if t.class == 0 && !t.constructed && t.number == TAG_OCTET_STRING {
                match read_octet_string(input, pos, end) {
                    Ok((v, p)) => Ok((Some(v), p)),
                    Err(e) => Err(e),
                }
            } else {
                Ok((None, pos))
            }
        },
    }
}

/// Specification parse of an optional INTEGER at `pos`: present exactly
/// when the next tag is INTEGER; its minimal content bytes are kept.
pub open spec fn sp_opt_integer(s: Seq<u8>, pos: int, end: int) -> Result<
    (Option<Seq<u8>>, int),
    DerError,
> {
    match sp_header(s, pos, end) {
        Err(e) => Err(e),
        Ok((t, cs, ce)) => {
            if t == uni_prim(TAG_INTEGER) {
                match sp_integer(s, pos, end) {
                    Ok((v, p)) => Ok((Some(v), p)),
                    Err(e) => Err(e),
                }
            } else {
                Ok((None, pos))
            }
        },
    }
}

/// Reads an optional INTEGER at `pos`.
fn read_opt_integer(input: &Vec<u8>, pos: usize, end: usize) -> (r: Result<
    (Option<Vec<u8>>, usize),
    DerError,
>)
    requires
        pos <= end <= input@.len(),
    ensures
        ({
            let sp = sp_opt_integer(input@, pos as int, end as int);
            match r {
                Ok((v, p)) => sp == Ok::<(Option<Seq<u8>>, int), DerError>(
                    (
                        match v {
                            Some(ref b) => Some(b@),
                            None => None,
                        },
                        p as int,
                    ),
                ) && pos <= p <= end,
                Err(e) => sp == Err::<(Option<Seq<u8>>, int), DerError>(e),
            }
        }),
{
    match read_header(input, pos, end) {
        Err(e) => Err(e),
        Ok((t, cs, ce)) => {
            if t.class == 0 && !t.constructed && t.number == TAG_INTEGER {
                match read_integer(input, pos, end) {
                    Ok((v, p)) => Ok((Some(v), p)),
                    Err(e) => Err(e),
                }
            } else {
                Ok((None, pos))
            }
        },
    }
}

/// Specification parse of an optional `ChoiceOfTime` at `pos`: present
/// exactly when the next tag is UTCTime or GeneralizedTime.
pub open spec fn sp_opt_time(s: Seq<u8>, pos: int, end: int) -> Result<
    (Option<TimeView>, int),
    DerError,
> {
    match sp_header(s, pos, end) {
        Err(e) => Err(e),
        Ok((t, cs, ce)) => {
            if t == uni_prim(TAG_UTC_TIME) || t == uni_prim(TAG_GENERALIZED_TIME) {
                match sp_time(s, pos, end) {
                    Ok((v, p)) => Ok((Some(v), p)),
                    Err(e) => Err(e),
                }
            } else {
                Ok((None, pos))
            }
        },
    }
}

/// Reads an optional `ChoiceOfTime` at `pos`.
fn read_opt_time(input: &Vec<u8>, pos: usize, end: usize) -> (r: Result<
    (Option<Time>, usize),
    DerError,
>)
    requires
        pos <= end <= input@.len(),
    ensures
        ({
            let sp = sp_opt_time(input@, pos as int, end as int);
            match r {
                Ok((v, p)) => sp == Ok::<(Option<TimeView>, int), DerError>(
                    (
                        match v {
                            Some(ref t) => Some(t@),
                            None => None,
                        },
                        p as int,
                    ),
                ) && pos <= p <= end,
                Err(e) => sp == Err::<(Option<TimeView>, int), DerError>(e),
            }
        }),
{
    match read_header(input, pos, end) {
        Err(e) => Err(e),
        Ok((t, cs, ce)) => {
            let is_time = t.class == 0 && !t.constructed && (t.number == TAG_UTC_TIME || t.number
                == TAG_GENERALIZED_TIME);
            if is_time {
                match read_time(input, pos, end) {
                    Ok((v, p)) => Ok((Some(v), p)),
                    Err(e) => Err(e),
                }
            } else {
                Ok((None, pos))
            }
        },
    }
}

/// Specification parse of the optional trusted-subjects field at `pos`:
/// present exactly when the next tag is SEQUENCE (and the window has not
/// ended), in which case its elements fill it in source order.
pub open spec fn sp_opt_subjects(s: Seq<u8>, pos: int, end: int) -> Result<
    (Option<Seq<TrustedSubjectView>>, int),
    DerError,
> {
    if pos >= end {
        Ok((None, pos))
    } else {
        match sp_header(s, pos, end) {
            Err(e) => Err(e),
            Ok((t, cs, ce)) => {
                if t == uni_cons(TAG_SEQUENCE) {
                    match sp_subject_list(s, cs, ce) {
                        Ok(subs) => Ok((Some(subs), ce)),
                        Err(e) => Err(e),
                    }
                } else {
                    Ok((None, pos))
                }
            },
        }
    }
}

/// Reads the optional trusted-subjects field at `pos`.
fn read_opt_subjects(input: &Vec<u8>, pos: usize, end: usize) -> (r: Result<
    (Option<Vec<TrustedSubject>>, usize),
    DerError,
>)
    requires
        pos <= end <= input@.len(),
    ensures
        ({
            let sp = sp_opt_subjects(input@, pos as int, end as int);
            match r {
                Ok((v, p)) => sp == Ok::<(Option<Seq<TrustedSubjectView>>, int), DerError>(
                    (
                        match v {
                            Some(ref subs) => Some(subs@.map_values(|x: TrustedSubject| x@)),
                            None => None,
                        },
                        p as int,
                    ),
                ) && pos <= p <= end,
                Err(e) => sp == Err::<(Option<Seq<TrustedSubjectView>>, int), DerError>(e),
            }
        }),
{
    if pos >= end {
        return Ok((None, pos));
    }
    match read_header(input, pos, end) {
        Err(e) => Err(e),
        Ok((t, cs, ce)) => {
            if t.class == 0 && t.constructed && t.number == TAG_SEQUENCE {
                match read_subject_list(input, cs, ce) {
                    Ok(subs) => Ok((Some(subs), ce)),
                    Err(e) => Err(e),
                }
            } else {
                Ok((None, pos))
            }
        },
    }
}

/// Specification parse of the optional explicit context-0 extensions field
/// at `pos`: present exactly when the next tag is context-0 constructed
/// (and the window has not ended); the wrapper must hold exactly one
/// value, kept undecoded.
pub open spec fn sp_opt_extensions(s: Seq<u8>, pos: int, end: int) -> Result<
    (Option<RawValueView>, int),
    DerError,
> {
    if pos >= end {
        Ok((None, pos))
    } else {
        match sp_header(s, pos, end) {
            Err(e) => Err(e),
            Ok((t, cs, ce)) => {
                if t == ctx_cons(0) {
                    match sp_raw(s, cs, ce) {
                        Ok((rv, p2)) => {
                            if p2 != ce {
                                Err(DerError::TrailingBytes(p2 as usize))
                            } else {
                                Ok((Some(rv), ce))
                            }
                        },
                        Err(e) => Err(e),
                    }
                } else {
                    Ok((None, pos))
                }
            },
        }
    }
}

/// Reads the optional explicit context-0 extensions field at `pos`.
fn read_opt_extensions(input: &Vec<u8>, pos: usize, end: usize) -> (r: Result<
    (Option<RawValue>, usize),
    DerError,
>)
    requires
        pos <= end <= input@.len(),
    ensures
        ({
            let sp = sp_opt_extensions(input@, pos as int, end as int);
            match r {
                Ok((v, p)) => sp == Ok::<(Option<RawValueView>, int), DerError>(
                    (
                        match v {
                            Some(ref rv) => Some(rv@),
                            None => None,
                        },
                        p as int,
                    ),
                ) && pos <= p <= end,
                Err(e) => sp == Err::<(Option<RawValueView>, int), DerError>(e),
            }
        }),
{
    if pos >= end {
        return Ok((None, pos));
    }
    match read_header(input, pos, end) {
        Err(e) => Err(e),
        Ok((t, cs, ce)) => {
            if t.class == 2 && t.constructed && t.number == 0 {
                match read_raw(input, cs, ce) {
                    Ok((rv, p2)) => {
                        if p2 != ce {
                            return Err(DerError::TrailingBytes(p2));
                        }
                        Ok((Some(rv), ce))
                    },
                    Err(e) => Err(e),
                }
            } else {
                Ok((None, pos))
            }
        },
    }
}

/// Specification parse of the fields of a `CertificateTrustList` SEQUENCE
/// inside `[pos, end)`, consuming the window exactly.
pub open spec fn sp_ctl_fields(s: Seq<u8>, pos: int, end: int) -> Result<
    CertificateTrustListView,
    DerError,
> {
    match sp_version(s, pos, end) {
        Err(e) => Err(e),
        Ok((ver, p0)) => match sp_header(s, p0, end) {
            Err(e) => Err(e),
            Ok((tu, ucs, uce)) => {
                if tu != uni_cons(TAG_SEQUENCE) {
                    Err(DerError::UnexpectedTag(p0 as usize))
                } else {
                    match sp_oid_list(s, ucs, uce) {
                        Err(e) => Err(e),
                        Ok(usages) => match sp_opt_octets(s, uce, end) {
                            Err(e) => Err(e),
                            Ok((li, p1)) => match sp_opt_integer(s, p1, end) {
                                Err(e) => Err(e),
                                Ok((sn, p2)) => match sp_time(s, p2, end) {
                                    Err(e) => Err(e),
                                    Ok((tup, p3)) => match sp_opt_time(s, p3, end) {
                                        Err(e) => Err(e),
                                        Ok((nup, p4)) => match sp_algid(s, p4, end) {
                                            Err(e) => Err(e),
                                            Ok((alg, p5)) => match sp_opt_subjects(s, p5, end) {
                                                Err(e) => Err(e),
                                                Ok((subs, p6)) => match sp_opt_extensions(
                                                    s,
                                                    p6,
                                                    end,
                                                ) {
                                                    Err(e) => Err(e),
                                                    Ok((ext, p7)) => {
                                                        if p7 != end {
                                                            Err(
                                                                DerError::TrailingBytes(
                                                                    p7 as usize,
                                                                ),
                                                            )
                                                        } else {
                                                            Ok(
                                                                CertificateTrustListView {
                                                                    version: ver,
                                                                    subject_usage: usages,
                                                                    list_identifier: li,
                                                                    sequence_number: sn,
                                                                    this_update: tup,
                                                                    next_update: nup,
                                                                    subject_algorithm: alg,
                                                                    trusted_subjects: subs,
                                                                    ctl_extensions: ext,
                                                                },
                                                            )
                                                        }
                                                    },
                                                },
                                            },
                                        },
                                    },
                                },
                            },
                        },
                    }
                }
            },
        },
    }
}

/// Reads the fields of a `CertificateTrustList` SEQUENCE inside
/// `[pos, end)`.
fn read_ctl_fields(input: &Vec<u8>, pos: usize, end: usize) -> (r: Result<
    CertificateTrustList,
    DerError,
>)
    requires
        pos <= end <= input@.len(),
    ensures
        ({
            let sp = sp_ctl_fields(input@, pos as int, end as int);
            match r {
                Ok(c) => sp == Ok::<CertificateTrustListView, DerError>(c@),
                Err(e) => sp == Err::<CertificateTrustListView, DerError>(e),
            }
        }),
{
    let (ver, p0) = match read_version(input, pos, end) {
        Ok(x) => x,
        Err(e) => {
            return Err(e);
        },
    };
    let (ucs, uce) = match read_header(input, p0, end) {
        Ok((tu, ucs, uce)) => {
            if !(tu.class == 0 && tu.constructed && tu.number == TAG_SEQUENCE) {
                return Err(DerError::UnexpectedTag(p0));
            }
            (ucs, uce)
        },
        Err(e) => {
            return Err(e);
        },
    };
    let usages = match read_oid_list(input, ucs, uce) {
        Ok(x) => x,
        Err(e) => {
            return Err(e);
        },
    };
    let (li, p1) = match read_opt_octets(input, uce, end) {
        Ok(x) => x,
        Err(e) => {
            return Err(e);
        },
    };
    let (sn, p2) = match read_opt_integer(input, p1, end) {
        Ok(x) => x,
        Err(e) => {
            return Err(e);
        },
    };
    let (tup, p3) = match read_time(input, p2, end) {
        Ok(x) => x,
        Err(e) => {
            return Err(e);
        },
    };
    let (nup, p4) = match read_opt_time(input, p3, end) {
        Ok(x) => x,
        Err(e) => {
            return Err(e);
        },
    };
    let (alg, p5) = match read_algid(input, p4, end) {
        Ok(x) => x,
        Err(e) => {
            return Err(e);
        },
    };
    let (subs, p6) = match read_opt_subjects(input, p5, end) {
        Ok(x) => x,
        Err(e) => {
            return Err(e);
        },
    };
    let (ext, p7) = match read_opt_extensions(input, p6, end) {
        Ok(x) => x,
        Err(e) => {
            return Err(e);
        },
    };
    if p7 != end {
        return Err(DerError::TrailingBytes(p7));
    }
    Ok(
        CertificateTrustList {
            version: ver,
            subject_usage: usages,
            list_identifier: li,
            sequence_number: sn,
            this_update: tup,
            next_update: nup,
            subject_algorithm: alg,
            trusted_subjects: subs,
            ctl_extensions: ext,
        },
    )
}

/// Specification parse of a complete `CertificateTrustList` document: a
/// SEQUENCE filling the whole input, whose fields fill it exactly.
pub open spec fn sp_ctl(s: Seq<u8>) -> Result<CertificateTrustListView, DerError> {
    match sp_header(s, 0, s.len() as int) {
        Err(e) => Err(e),
        Ok((t, cs, ce)) => {
            if t != uni_cons(TAG_SEQUENCE) {
                Err(DerError::UnexpectedTag(0))
            } else if ce != s.len() {
                Err(DerError::TrailingBytes(ce as usize))
            } else {
                sp_ctl_fields(s, cs, ce)
            }
        },
    }
}

/// Decodes a complete `CertificateTrustList` document.
pub fn decode_ctl(input: &Vec<u8>) -> (r: Result<CertificateTrustList, DerError>)
    ensures
        ({
            let sp = sp_ctl(input@);
            match r {
                Ok(c) => sp == Ok::<CertificateTrustListView, DerError>(c@),
                Err(e) => sp == Err::<CertificateTrustListView, DerError>(e),
            }
        }),
{
    let end = input.len();
    match read_header(input, 0, end) {
        Err(e) => Err(e),
        Ok((t, cs, ce)) => {
            if !(t.class == 0 && t.constructed && t.number == TAG_SEQUENCE) {
                return Err(DerError::UnexpectedTag(0));
            }
            if ce != end {
                return Err(DerError::TrailingBytes(ce));
            }
            read_ctl_fields(input, cs, ce)
        },
    }
}

/// Specification decode of a trust list from a complete signedData
/// document: unwrap the envelope, demand the trust-list content type and a
/// present encapsulated content, and parse it as a
/// `CertificateTrustList` document.
pub open spec fn sp_ctl_from_der(s: Seq<u8>) -> Result<CertificateTrustListView, CtlErrorView> {
    match sp_unwrap(s) {
        Err(e) => Err(e),
        Ok(sd) => {
            if sd.encap_content_type != oid_cert_trust_list() {
                Err(CtlErrorView::Content(sd.encap_content_type))
            } else {
                match sd.encap_content {
                    None => Err(CtlErrorView::MissingSignedDataContent),
                    Some(bytes) => match sp_ctl(bytes) {
                        Ok(c) => Ok(c),
                        Err(e) => Err(CtlErrorView::Der(e)),
                    },
                }
            }
        },
    }
}

impl CertificateTrustList {
    /// Loads a `CertificateTrustList` from the bytes of a DER-encoded
    /// PKCS#7 signedData document.
    ///
    /// Succeeds exactly when the bytes are a well-formed signedData
    /// envelope whose encapsulated content type is the certificate trust
    /// list and whose encapsulated content is a well-formed trust list
    /// document; the error otherwise says which expectation failed.
    pub fn from_der(input: &Vec<u8>) -> (r: Result<CertificateTrustList, CtlError>)
        ensures
            ({
                let sp = sp_ctl_from_der(input@);
                match r {
                    Ok(c) => sp == Ok::<CertificateTrustListView, CtlErrorView>(c@),
                    Err(e) => sp == Err::<CertificateTrustListView, CtlErrorView>(e@),
                }
            }),
    {
        match unwrap_signed_data(input) {
            Err(e) => Err(e),
            Ok(sd) => {
                let ctl_oid = ms_cert_trust_list_oid();
                if !(sd.encap_content_type == ctl_oid) {
                    return Err(CtlError::Content(sd.encap_content_type));
                }
                match sd.encap_content {
                    None => Err(CtlError::MissingSignedDataContent),
                    Some(bytes) => match decode_ctl(&bytes) {
                        Ok(c) => Ok(c),
                        Err(e) => Err(CtlError::Der(e)),
                    },
                }
            },
        }
    }
}

} // verus!
