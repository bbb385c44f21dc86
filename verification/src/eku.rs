//! Extraction of extended key usages from a trusted subject.
//!
//! The usages sit behind a double encoding: the subject's attribute set is
//! filtered to the attributes whose type is the extended-key-usage
//! attribute; each of their values is an OCTET STRING whose content is a
//! second, independent DER document `SEQUENCE OF OBJECT IDENTIFIER`.  All
//! identifiers from all matching attributes and values are flattened into
//! one list in encounter order; nothing is deduplicated.
//!
//! Extraction is eager and fails fast: the first malformed value aborts the
//! whole extraction with a nested-decode error, and nothing is yielded.

use vstd::prelude::*;
use crate::ctl::Attribute;
use crate::ctl::AttributeView;
use crate::ctl::TrustedSubject;
use crate::ctl::TrustedSubjectView;
use crate::ctl::read_oid_list;
use crate::ctl::sp_oid_list;
use crate::der::DerError;
use crate::der::Identifier;
use crate::der::RawValueView;
use crate::der::TAG_OCTET_STRING;
use crate::der::TAG_SEQUENCE;
use crate::der::read_header;
use crate::der::sp_header;
use crate::der::uni_cons;
use crate::der::uni_prim;
use crate::error::CtlError;
use crate::error::CtlErrorView;
use crate::oids::oid_metaekus;
use crate::oids::ms_cert_prop_id_metaekus_oid;

verus! {

/// Specification parse of a complete `SEQUENCE OF OBJECT IDENTIFIER`
/// document: the second-layer encoding of an extended-key-usage list.
pub open spec fn sp_meta_eku(s: Seq<u8>) -> Result<Seq<Seq<u8>>, DerError> {
    match sp_header(s, 0, s.len() as int) {
        Err(e) => Err(e),
        Ok((t, cs, ce)) => {
            if t != uni_cons(TAG_SEQUENCE) {
                Err(DerError::UnexpectedTag(0))
            } else if ce != s.len() {
                Err(DerError::TrailingBytes(ce as usize))
            } else {
                sp_oid_list(s, cs, ce)
            }
        },
    }
}

/// Decodes a complete `SEQUENCE OF OBJECT IDENTIFIER` document: the
/// second-layer encoding of an extended-key-usage list.
pub fn decode_meta_eku(input: &Vec<u8>) -> (r: Result<Vec<Identifier>, DerError>)
    ensures
        ({
            let sp = sp_meta_eku(input@);
            match r {
                Ok(v) => sp == Ok::<Seq<Seq<u8>>, DerError>(v@.map_values(|x: Identifier| x@)),
                Err(e) => sp == Err::<Seq<Seq<u8>>, DerError>(e),
            }
        }),
{
    let end = input.len();
    match read_header(input, 0, end) {
        Err(e) => Err(e),
        Ok((t, cs, ce)) => {
            if !(t.class == 0 && t.constructed && t.number == TAG_SEQUENCE) {
                return Err(DerError::UnexpectedTag(0));
            }
            if ce != end {
                return Err(DerError::TrailingBytes(ce));
            }
            read_oid_list(input, cs, ce)
        },
    }
}

/// Specification extraction from one attribute value: the value must be an
/// OCTET STRING, whose content decodes as a second DER document listing
/// the usage identifiers.
pub open spec fn sp_value_ekus(rv: RawValueView) -> Result<Seq<Seq<u8>>, DerError> {
    if rv.tag != uni_prim(TAG_OCTET_STRING) {
        Err(DerError::UnexpectedTag(0))
    } else {
        sp_meta_eku(rv.content)
    }
}

/// Specification extraction from an attribute's values, flattened in
/// encounter order, failing fast on the first malformed value.
pub open spec fn sp_values_ekus(vals: Seq<RawValueView>) -> Result<Seq<Seq<u8>>, DerError>
    decreases vals.len(),
{
    if vals.len() == 0 {
        Ok(Seq::empty())
    } else {
        match sp_value_ekus(vals[0]) {
            Err(e) => Err(e),
            Ok(xs) => match sp_values_ekus(vals.drop_first()) {
                Ok(rest) => Ok(xs + rest),
                Err(e) => Err(e),
            },
        }
    }
}

/// Specification extraction from an attribute list: only attributes whose
/// type is the extended-key-usage attribute contribute, in encounter
/// order.
pub open spec fn sp_attrs_ekus(attrs: Seq<AttributeView>) -> Result<Seq<Seq<u8>>, DerError>
    decreases attrs.len(),
{
    if attrs.len() == 0 {
        Ok(Seq::empty())
    } else {
        let first = if attrs[0].oid == oid_metaekus() {
            sp_values_ekus(attrs[0].values)
        } else {
            Ok(Seq::empty())
        };
        match first {
            Err(e) => Err(e),
            Ok(xs) => match sp_attrs_ekus(attrs.drop_first()) {
                Ok(rest) => Ok(xs + rest),
                Err(e) => Err(e),
            },
        }
    }
}

/// Specification extraction from a trusted subject: an absent attribute
/// set yields the empty list.
pub open spec fn sp_subject_ekus(v: TrustedSubjectView) -> Result<Seq<Seq<u8>>, DerError> {
    match v.attributes {
        None => Ok(Seq::empty()),
        Some(attrs) => sp_attrs_ekus(attrs),
    }
}

/// Specification extraction from a trusted subject, with the second-layer
/// failure reported as a nested-decode error.
pub open spec fn sp_ekus(v: TrustedSubjectView) -> Result<Seq<Seq<u8>>, CtlErrorView> {
    match sp_subject_ekus(v) {
        Ok(xs) => Ok(xs),
        Err(e) => Err(CtlErrorView::NestedDer(e)),
    }
}

/// Extracts the usage identifiers from one attribute's values.
fn attr_ekus(attr: &Attribute) -> (r: Result<Vec<Identifier>, DerError>)
    ensures
        ({
            let sp = sp_values_ekus(attr@.values);
            match r {
                Ok(v) => sp == Ok::<Seq<Seq<u8>>, DerError>(v@.map_values(|x: Identifier| x@)),
                Err(e) => sp == Err::<Seq<Seq<u8>>, DerError>(e),
            }
        }),
{
    let ghost vals_v = attr@.values;
    let mut out: Vec<Identifier> = Vec::new();
    let mut j: usize = 0;
    proof {
        assert(vals_v.skip(0) =~= vals_v);
        match sp_values_ekus(vals_v) {
            Ok(rest) => {
                assert(Seq::<Seq<u8>>::empty() + rest =~= rest);
            },
            Err(_) => {},
        }
    }
    while j < attr.values.len()
        invariant
            j <= attr.values@.len(),
            vals_v == attr@.values,
            vals_v.len() == attr.values@.len(),
            ({
                let whole = sp_values_ekus(vals_v);
                let rest = sp_values_ekus(vals_v.skip(j as int));
                match rest {
                    Ok(rs) => whole == Ok::<Seq<Seq<u8>>, DerError>(
                        out@.map_values(|x: Identifier| x@) + rs,
                    ),
                    Err(e) => whole == Err::<Seq<Seq<u8>>, DerError>(e),
                }
            }),
        decreases attr.values@.len() - j,
    {
        proof {
            assert(vals_v.skip(j as int).len() > 0);
            assert(vals_v.skip(j as int)[0] == vals_v[j as int]);
            assert(vals_v.skip(j as int).drop_first() =~= vals_v.skip(j as int + 1));
        }
        let rv = &attr.values[j];
        if !(rv.tag.class == 0 && !rv.tag.constructed && rv.tag.number == TAG_OCTET_STRING) {
            return Err(DerError::UnexpectedTag(0));
        }
        match decode_meta_eku(&rv.content) {
            Err(e) => {
                return Err(e);
            },
            Ok(mut ids) => {
                proof {
                    let old_views = out@.map_values(|x: Identifier| x@);
                    let ids_views = ids@.map_values(|x: Identifier| x@);
                    assert((out@ + ids@).map_values(|x: Identifier| x@) =~= old_views + ids_views);
                    match sp_values_ekus(vals_v.skip(j as int + 1)) {
                        Ok(rs2) => {
                            assert(old_views + (ids_views + rs2) =~= (old_views + ids_views) + rs2);
                        },
                        Err(_) => {},
                    }
                }
                out.append(&mut ids);
                j = j + 1;
            },
        }
    }
    proof {
        assert(vals_v.skip(j as int).len() == 0);
        assert(vals_v.skip(j as int) =~= Seq::<RawValueView>::empty());
        assert(out@.map_values(|x: Identifier| x@) + Seq::<Seq<u8>>::empty() =~= out@.map_values(
            |x: Identifier| x@,
        ));
    }
    Ok(out)
}

impl TrustedSubject {
    /// All extended key usages listed in this subject, flattened from every
    /// extended-key-usage attribute value in encounter order, without
    /// deduplication.
    ///
    /// Extraction is eager and fails fast: if any single value is
    /// malformed at either layer of its double encoding, the whole call
    /// reports the nested-decode failure and yields nothing.
    pub fn extended_key_usages(&self) -> (r: Result<Vec<Identifier>, CtlError>)
        ensures
            ({
                let sp = sp_ekus(self@);
                match r {
                    Ok(v) => sp == Ok::<Seq<Seq<u8>>, CtlErrorView>(
                        v@.map_values(|x: Identifier| x@),
                    ),
                    Err(e) => sp == Err::<Seq<Seq<u8>>, CtlErrorView>(e@),
                }
            }),
    {
        let attrs = match self.attributes {
            None => {
                let out: Vec<Identifier> = Vec::new();
                proof {
                    assert(out@.map_values(|x: Identifier| x@) =~= Seq::<Seq<u8>>::empty());
                }
                return Ok(out);
            },
            Some(ref attrs) => attrs,
        };
        let ghost attrs_v = attrs@.map_values(|x: Attribute| x@);
        let mut out: Vec<Identifier> = Vec::new();
        let mut i: usize = 0;
        proof {
            assert(attrs_v.skip(0) =~= attrs_v);
            match sp_attrs_ekus(attrs_v) {
                Ok(rest) => {
                    assert(Seq::<Seq<u8>>::empty() + rest =~= rest);
                },
                Err(_) => {},
            }
        }
        while i < attrs.len()
            invariant
                i <= attrs@.len(),
                attrs_v == attrs@.map_values(|x: Attribute| x@),
                attrs_v.len() == attrs@.len(),
                self@.attributes == Some(attrs_v),
                ({
                    let whole = sp_attrs_ekus(attrs_v);
                    let rest = sp_attrs_ekus(attrs_v.skip(i as int));
                    match rest {
                        Ok(rs) => whole == Ok::<Seq<Seq<u8>>, DerError>(
                            out@.map_values(|x: Identifier| x@) + rs,
                        ),
                        Err(e) => whole == Err::<Seq<Seq<u8>>, DerError>(e),
                    }
                }),
            decreases attrs@.len() - i,
        {
            proof {
                assert(attrs_v.skip(i as int).len() > 0);
                assert(attrs_v.skip(i as int)[0] == attrs_v[i as int]);
                assert(attrs_v.skip(i as int).drop_first() =~= attrs_v.skip(i as int + 1));
            }
            let attr = &attrs[i];
            let meta = ms_cert_prop_id_metaekus_oid();
            if attr.oid == meta {
                match attr_ekus(attr) {
                    Err(e) => {
                        return Err(CtlError::NestedDer(e));
                    },
                    Ok(mut ids) => {
                        proof {
                            let old_views = out@.map_values(|x: Identifier| x@);
                            let ids_views = ids@.map_values(|x: Identifier| x@);
                            assert((out@ + ids@).map_values(|x: Identifier| x@) =~= old_views
                                + ids_views);
                            match sp_attrs_ekus(attrs_v.skip(i as int + 1)) {
                                Ok(rs2) => {
                                    assert(old_views + (ids_views + rs2) =~= (old_views
                                        + ids_views) + rs2);
                                },
                                Err(_) => {},
                            }
                        }
                        out.append(&mut ids);
                        i = i + 1;
                    },
                }
            } else {
                proof {
                    let old_views = out@.map_values(|x: Identifier| x@);
                    match sp_attrs_ekus(attrs_v.skip(i as int + 1)) {
                        Ok(rs2) => {
                            assert(old_views + (Seq::<Seq<u8>>::empty() + rs2) =~= old_views + rs2);
                        },
                        Err(_) => {},
                    }
                }
                i = i + 1;
            }
        }
        proof {
            assert(attrs_v.skip(i as int).len() == 0);
            assert(attrs_v.skip(i as int) =~= Seq::<AttributeView>::empty());
            assert(out@.map_values(|x: Identifier| x@) + Seq::<Seq<u8>>::empty()
                =~= out@.map_values(|x: Identifier| x@));
        }
        Ok(out)
    }
}

} // verus!
