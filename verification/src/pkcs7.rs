//! The PKCS#7 envelope: `ContentInfo` and the `SignedData` fields needed to
//! reach the encapsulated content.
//!
//! Only the content-carrying shape of the envelope is modelled.  Digest
//! algorithms, certificates, revocation lists and signer infos are decoded
//! far enough to skip past correctly, and then discarded; no signature is
//! verified.

use vstd::prelude::*;
use crate::der::DerError;
use crate::der::Identifier;
use crate::der::RawValue;
use crate::der::RawValueView;
use crate::der::TAG_INTEGER;
use crate::der::TAG_SEQUENCE;
use crate::der::TAG_SET;
use crate::der::ctx_cons;
use crate::der::read_header;
use crate::der::read_oid;
use crate::der::read_raw;
use crate::der::copy_range;
use crate::der::sp_header;
use crate::der::sp_oid;
use crate::der::sp_raw;
use crate::der::uni_cons;
use crate::der::uni_prim;
use crate::error::CtlError;
use crate::error::CtlErrorView;
use crate::oids::oid_signed_data;
use crate::oids::signed_data_oid;

verus! {

/// The outermost PKCS#7 structure: a content type, and optionally the
/// content itself, kept undecoded.
#[derive(Clone, Debug, PartialEq)]
pub struct ContentInfo {
    /// The content type of the envelope.
    pub content_type: Identifier,
    /// The enveloped content, if present: the single value found inside the
    /// explicit context-0 wrapper.
    pub content: Option<RawValue>,
}

/// The mathematical model of a [`ContentInfo`].
pub struct ContentInfoView {
    /// The content type of the envelope.
    pub content_type: Seq<u8>,
    /// The enveloped content, if present.
    pub content: Option<RawValueView>,
}

impl View for ContentInfo {
    type V = ContentInfoView;

    open spec fn view(&self) -> ContentInfoView {
        ContentInfoView {
            content_type: self.content_type@,
            content: match self.content {
                Some(rv) => Some(rv@),
                None => None,
            },
        }
    }
}

/// The fields of a `SignedData` value that this library retains: the
/// encapsulated content type, and the complete encapsulated value's bytes.
#[derive(Clone, Debug, PartialEq)]
pub struct SignedData {
    /// The encapsulated content type.
    pub encap_content_type: Identifier,
    /// The bytes of the single value inside the encapsulated content's
    /// explicit context-0 wrapper, if present: a complete DER document.
    pub encap_content: Option<Vec<u8>>,
}

/// The mathematical model of a [`SignedData`].
pub struct SignedDataView {
    /// The encapsulated content type.
    pub encap_content_type: Seq<u8>,
    /// The encapsulated value's bytes, if present.
    pub encap_content: Option<Seq<u8>>,
}

impl View for SignedData {
    type V = SignedDataView;

    open spec fn view(&self) -> SignedDataView {
        SignedDataView {
            encap_content_type: self.encap_content_type@,
            encap_content: match self.encap_content {
                Some(ref v) => Some(v@),
                None => None,
            },
        }
    }
}

/// Specification parse of a complete `ContentInfo` document: a SEQUENCE
/// filling the whole input, holding a content type and optionally an
/// explicit context-0 wrapper around one undecoded value.
pub open spec fn sp_content_info(s: Seq<u8>) -> Result<ContentInfoView, DerError> {
    match sp_header(s, 0, s.len() as int) {
        Ok((t, cs, ce)) => {
            if t != uni_cons(TAG_SEQUENCE) {
                Err(DerError::UnexpectedTag(0))
            } else if ce != s.len() {
                Err(DerError::TrailingBytes(ce as usize))
            } else {
                match sp_oid(s, cs, ce) {
                    Ok((ct, p)) => {
                        if p == ce {
                            Ok(ContentInfoView { content_type: ct, content: None })
                        } else {
                            match sp_header(s, p, ce) {
                                Ok((t2, cs2, ce2)) => {
                                    if t2 != ctx_cons(0) {
                                        Err(DerError::UnexpectedTag(p as usize))
                                    } else if ce2 != ce {
                                        Err(DerError::TrailingBytes(ce2 as usize))
                                    } else {
                                        match sp_raw(s, cs2, ce2) {
                                            Ok((rv, p3)) => {
                                                if p3 != ce2 {
                                                    Err(DerError::TrailingBytes(p3 as usize))
                                                } else {
                                                    Ok(
                                                        ContentInfoView {
                                                            content_type: ct,
                                                            content: Some(rv),
                                                        },
                                                    )
                                                }
                                            },
                                            Err(e) => Err(e),
                                        }
                                    }
                                },
                                Err(e) => Err(e),
                            }
                        }
                    },
                    Err(e) => Err(e),
                }
            }
        },
        Err(e) => Err(e),
    }
}

/// Decodes a complete `ContentInfo` document.
pub fn decode_content_info(input: &Vec<u8>) -> (r: Result<ContentInfo, DerError>)
    ensures
        ({
            let sp = sp_content_info(input@);
            match r {
                Ok(ci) => sp == Ok::<ContentInfoView, DerError>(ci@),
                Err(e) => sp == Err::<ContentInfoView, DerError>(e),
            }
        }),
{
    let end = input.len();
    match read_header(input, 0, end) {
        Ok((t, cs, ce)) => {
            if !(t.class == 0 && t.constructed && t.number == TAG_SEQUENCE) {
                return Err(DerError::UnexpectedTag(0));
            }
            if ce != end {
                return Err(DerError::TrailingBytes(ce));
            }
            match read_oid(input, cs, ce) {
                Ok((ct, p)) => {
                    if p == ce {
                        return Ok(ContentInfo { content_type: ct, content: None });
                    }
                    match read_header(input, p, ce) {
                        Ok((t2, cs2, ce2)) => {
                            if !(t2.class == 2 && t2.constructed && t2.number == 0) {
                                return Err(DerError::UnexpectedTag(p));
                            }
                            if ce2 != ce {
                                return Err(DerError::TrailingBytes(ce2));
                            }
                            match read_raw(input, cs2, ce2) {
                                Ok((rv, p3)) => {
                                    if p3 != ce2 {
                                        return Err(DerError::TrailingBytes(p3));
                                    }
                                    Ok(ContentInfo { content_type: ct, content: Some(rv) })
                                },
                                Err(e) => Err(e),
                            }
                        },
                        Err(e) => Err(e),
                    }
                },
                Err(e) => Err(e),
            }
        },
        Err(e) => Err(e),
    }
}

/// Specification parse of the encapsulated content info at `pos`: the
/// encapsulated content type, and, if present, the bytes of the single
/// value inside the explicit context-0 wrapper.
pub open spec fn sp_encap(s: Seq<u8>, pos: int, end: int) -> Result<
    (Seq<u8>, Option<Seq<u8>>, int),
    DerError,
> {
    match sp_header(s, pos, end) {
        Ok((t, cs, ce)) => {
            if t != uni_cons(TAG_SEQUENCE) {
                Err(DerError::UnexpectedTag(pos as usize))
            } else {
                match sp_oid(s, cs, ce) {
                    Ok((ect, p)) => {
                        if p == ce {
                            Ok((ect, None, ce))
                        } else {
                            match sp_header(s, p, ce) {
                                Ok((t2, cs2, ce2)) => {
                                    if t2 != ctx_cons(0) {
                                        Err(DerError::UnexpectedTag(p as usize))
                                    } else if ce2 != ce {
                                        Err(DerError::TrailingBytes(ce2 as usize))
                                    } else {
                                        match sp_header(s, cs2, ce2) {
                                            Ok((t3, cs3, ce3)) => {
                                                if ce3 != ce2 {
                                                    Err(DerError::TrailingBytes(ce3 as usize))
                                                } else {
                                                    Ok((ect, Some(s.subrange(cs2, ce2)), ce))
                                                }
                                            },
                                            Err(e) => Err(e),
                                        }
                                    }
                                },
                                Err(e) => Err(e),
                            }
                        }
                    },
                    Err(e) => Err(e),
                }
            }
        },
        Err(e) => Err(e),
    }
}

/// Reads the encapsulated content info at `pos`.
fn read_encap(input: &Vec<u8>, pos: usize, end: usize) -> (r: Result<
    (Identifier, Option<Vec<u8>>, usize),
    DerError,
>)
    requires
        pos <= end <= input@.len(),
    ensures
        ({
            let sp = sp_encap(input@, pos as int, end as int);
            match r {
                Ok((ect, ec, p)) => sp == Ok::<(Seq<u8>, Option<Seq<u8>>, int), DerError>(
                    (
                        ect@,
                        match ec {
                            Some(ref v) => Some(v@),
                            None => None,
                        },
                        p as int,
                    ),
                ) && p <= end,
                Err(e) => sp == Err::<(Seq<u8>, Option<Seq<u8>>, int), DerError>(e),
            }
        }),
{
    match read_header(input, pos, end) {
        Ok((t, cs, ce)) => {
            if !(t.class == 0 && t.constructed && t.number == TAG_SEQUENCE) {
                return Err(DerError::UnexpectedTag(pos));
            }
            match read_oid(input, cs, ce) {
                Ok((ect, p)) => {
                    if p == ce {
                        return Ok((ect, None, ce));
                    }
                    match read_header(input, p, ce) {
                        Ok((t2, cs2, ce2)) => {
                            if !(t2.class == 2 && t2.constructed && t2.number == 0) {
                                return Err(DerError::UnexpectedTag(p));
                            }
                            if ce2 != ce {
                                return Err(DerError::TrailingBytes(ce2));
                            }
                            match read_header(input, cs2, ce2) {
                                Ok((t3, cs3, ce3)) => {
                                    if ce3 != ce2 {
                                        return Err(DerError::TrailingBytes(ce3));
                                    }
                                    let v = copy_range(input, cs2, ce2);
                                    Ok((ect, Some(v), ce))
                                },
                                Err(e) => Err(e),
                            }
                        },
                        Err(e) => Err(e),
                    }
                },
                Err(e) => Err(e),
            }
        },
        Err(e) => Err(e),
    }
}

/// Specification skip of an optional context-tagged field with number `n`
/// at `pos`: the position after it if present, `pos` itself if absent.
pub open spec fn sp_skip_ctx(s: Seq<u8>, pos: int, end: int, n: u64) -> Result<int, DerError> {
    match sp_header(s, pos, end) {
        Ok((t, cs, ce)) => Ok(
            if t.class == 2 && t.number == n {
                ce
            } else {
                pos
            },
        ),
        Err(e) => Err(e),
    }
}

/// Specification parse of the fields of a `SignedData` SEQUENCE filling the
/// whole of `s`: an INTEGER version and a SET of digest algorithms are
/// skipped, the encapsulated content info is retained, optional
/// certificate and revocation-list fields are skipped, and a final SET of
/// signer infos must end the value exactly.
pub open spec fn sp_signed_data_fields(s: Seq<u8>) -> Result<SignedDataView, DerError> {
    let end = s.len() as int;
    match sp_header(s, 0, end) {
        Ok((tv, vcs, vce)) => {
            if tv != uni_prim(TAG_INTEGER) {
                Err(DerError::UnexpectedTag(0))
            } else {
                match sp_header(s, vce, end) {
                    Ok((td, dcs, dce)) => {
                        if td != uni_cons(TAG_SET) {
                            Err(DerError::UnexpectedTag(vce as usize))
                        } else {
                            match sp_encap(s, dce, end) {
                                Ok((ect, ec, p)) => {
                                    match sp_skip_ctx(s, p, end, 0) {
                                        Ok(p1) => {
                                            match sp_skip_ctx(s, p1, end, 1) {
                                                Ok(p2) => {
                                                    match sp_header(s, p2, end) {
                                                        Ok((ts, scs, sce)) => {
                                                            if ts != uni_cons(TAG_SET) {
                                                                Err(
                                                                    DerError::UnexpectedTag(
                                                                        p2 as usize,
                                                                    ),
                                                                )
                                                            } else if sce != end {
                                                                Err(
                                                                    DerError::TrailingBytes(
                                                                        sce as usize,
                                                                    ),
                                                                )
                                                            } else {
                                                                Ok(
                                                                    SignedDataView {
                                                                        encap_content_type: ect,
                                                                        encap_content: ec,
                                                                    },
                                                                )
                                                            }
                                                        },
                                                        Err(e) => Err(e),
                                                    }
                                                },
                                                Err(e) => Err(e),
                                            }
                                        },
                                        Err(e) => Err(e),
                                    }
                                },
                                Err(e) => Err(e),
                            }
                        }
                    },
                    Err(e) => Err(e),
                }
            }
        },
        Err(e) => Err(e),
    }
}

/// Skips an optional context-tagged field with number `n` at `pos`.
fn skip_ctx(input: &Vec<u8>, pos: usize, end: usize, n: u64) -> (r: Result<usize, DerError>)
    requires
        pos <= end <= input@.len(),
    ensures
        ({
            let sp = sp_skip_ctx(input@, pos as int, end as int, n);
            match r {
                Ok(p) => sp == Ok::<int, DerError>(p as int) && pos <= p <= end,
                Err(e) => sp == Err::<int, DerError>(e),
            }
        }),
{
    match read_header(input, pos, end) {
        Ok((t, cs, ce)) => {
            if t.class == 2 && t.number == n {
                Ok(ce)
            } else {
                Ok(pos)
            }
        },
        Err(e) => Err(e),
    }
}

/// Decodes the fields of a `SignedData` SEQUENCE from its content bytes.
fn decode_signed_data_fields(input: &Vec<u8>) -> (r: Result<SignedData, DerError>)
    ensures
        ({
            let sp = sp_signed_data_fields(input@);
            match r {
                Ok(sd) => sp == Ok::<SignedDataView, DerError>(sd@),
                Err(e) => sp == Err::<SignedDataView, DerError>(e),
            }
        }),
{
    let end = input.len();
    match read_header(input, 0, end) {
        Ok((tv, vcs, vce)) => {
            if !(tv.class == 0 && !tv.constructed && tv.number == TAG_INTEGER) {
                return Err(DerError::UnexpectedTag(0));
            }
            match read_header(input, vce, end) {
                Ok((td, dcs, dce)) => {
                    if !(td.class == 0 && td.constructed && td.number == TAG_SET) {
                        return Err(DerError::UnexpectedTag(vce));
                    }
                    match read_encap(input, dce, end) {
                        Ok((ect, ec, p)) => {
                            match skip_ctx(input, p, end, 0) {
                                Ok(p1) => {
                                    match skip_ctx(input, p1, end, 1) {
                                        Ok(p2) => {
                                            match read_header(input, p2, end) {
                                                Ok((ts, scs, sce)) => {
                                                    if !(ts.class == 0 && ts.constructed
                                                        && ts.number == TAG_SET) {
                                                        return Err(DerError::UnexpectedTag(p2));
                                                    }
                                                    if sce != end {
                                                        return Err(DerError::TrailingBytes(sce));
                                                    }
                                                    Ok(
                                                        SignedData {
                                                            encap_content_type: ect,
                                                            encap_content: ec,
                                                        },
                                                    )
                                                },
                                                Err(e) => Err(e),
                                            }
                                        },
                                        Err(e) => Err(e),
                                    }
                                },
                                Err(e) => Err(e),
                            }
                        },
                        Err(e) => Err(e),
                    }
                },
                Err(e) => Err(e),
            }
        },
        Err(e) => Err(e),
    }
}

/// Specification unwrap of the signedData envelope: decode the
/// `ContentInfo`, demand the signedData content type and a present,
/// constructed content, and decode the `SignedData` fields inside it.
pub open spec fn sp_unwrap(s: Seq<u8>) -> Result<SignedDataView, CtlErrorView> {
    match sp_content_info(s) {
        Err(e) => Err(CtlErrorView::Der(e)),
        Ok(ci) => {
            if ci.content_type != oid_signed_data() {
                Err(CtlErrorView::ContentType(ci.content_type))
            } else {
                match ci.content {
                    None => Err(CtlErrorView::MissingSignedData),
                    Some(rv) => {
                        if rv.tag != uni_cons(TAG_SEQUENCE) {
                            Err(CtlErrorView::Der(DerError::UnexpectedTag(0)))
                        } else {
                            match sp_signed_data_fields(rv.content) {
                                Ok(sd) => Ok(sd),
                                Err(e) => Err(CtlErrorView::Der(e)),
                            }
                        }
                    },
                }
            }
        },
    }
}

/// Decodes the outer `ContentInfo`, demands the signedData content type,
/// and returns the retained `SignedData` fields.
///
/// Succeeds exactly when the input is a well-formed signedData envelope;
/// the error otherwise pins down which expectation failed, carrying the
/// observed content type where one was decoded.
pub fn unwrap_signed_data(input: &Vec<u8>) -> (r: Result<SignedData, CtlError>)
    ensures
        ({
            let sp = sp_unwrap(input@);
            match r {
                Ok(sd) => sp == Ok::<SignedDataView, CtlErrorView>(sd@),
                Err(e) => sp == Err::<SignedDataView, CtlErrorView>(e@),
            }
        }),
{
    match decode_content_info(input) {
        Err(e) => Err(CtlError::Der(e)),
        Ok(ci) => {
            let sdo = signed_data_oid();
            if !(ci.content_type == sdo) {
                return Err(CtlError::ContentType(ci.content_type));
            }
            match ci.content {
                None => Err(CtlError::MissingSignedData),
                Some(rv) => {
                    if !(rv.tag.class == 0 && rv.tag.constructed && rv.tag.number == TAG_SEQUENCE) {
                        return Err(CtlError::Der(DerError::UnexpectedTag(0)));
                    }
                    match decode_signed_data_fields(&rv.content) {
                        Ok(sd) => Ok(sd),
                        Err(e) => Err(CtlError::Der(e)),
                    }
                },
            }
        },
    }
}

} // verus!
