//! Rejection laws: non-canonical encodings never decode, and no proper
//! prefix of a valid document decodes to anything but a truncation error.

use vstd::prelude::*;
use crate::der::DerError;
use crate::der::TAG_BOOLEAN;
use crate::der::TAG_INTEGER;
use crate::der::int_content_ok;
use crate::der::sp_bool;
use crate::der::sp_header;
use crate::der::sp_integer;
use crate::der::sp_len;
use crate::der::sp_tagnum;
use crate::der::uni_prim;
use crate::error::CtlErrorView;
use crate::ctl::sp_ctl_from_der;
use crate::oids::oid_signed_data;
use crate::pkcs7::sp_content_info;
use crate::pkcs7::sp_unwrap;

verus! {

/// An INTEGER whose content begins with a redundant leading byte — a zero
/// byte before a byte without the high bit, as produced by a non-minimal
/// encoder — is rejected as non-canonical, never silently normalised.
pub proof fn lemma_reject_nonminimal_integer(s: Seq<u8>, pos: int, end: int)
    requires
        0 <= pos,
        end <= s.len(),
    ensures
        ({
            match sp_header(s, pos, end) {
                Ok((t, cs, ce)) => (t == uni_prim(TAG_INTEGER) && ce - cs >= 2 && s[cs] == 0
                    && s[cs + 1] < 0x80) ==> sp_integer(s, pos, end) == Err::<
                    (Seq<u8>, int),
                    DerError,
                >(DerError::NonCanonicalInteger(cs as usize)),
                Err(_) => true,
            }
        }),
{
    crate::der::lemma_sp_header_bounds(s, pos, end);
    match sp_header(s, pos, end) {
        Ok((t, cs, ce)) => {
            if t == uni_prim(TAG_INTEGER) && ce - cs >= 2 && s[cs] == 0 && s[cs + 1] < 0x80 {
                let c = s.subrange(cs, ce);
                assert(c[0] == s[cs] && c[1] == s[cs + 1]);
                assert(!int_content_ok(c));
            }
        },
        Err(_) => {},
    }
}

/// A BOOLEAN whose single content byte is neither 0x00 nor 0xFF — such as
/// 0x01 — is rejected, never silently normalised.
pub proof fn lemma_reject_noncanonical_boolean(s: Seq<u8>, pos: int, end: int)
    ensures
        ({
            match sp_header(s, pos, end) {
                Ok((t, cs, ce)) => (t == uni_prim(TAG_BOOLEAN) && ce - cs == 1 && s[cs] != 0
                    && s[cs] != 0xFF) ==> sp_bool(s, pos, end) == Err::<(bool, int), DerError>(
                    DerError::InvalidBoolean(cs as usize),
                ),
                Err(_) => true,
            }
        }),
{
}

/// An envelope whose content type is not signedData is rejected with the
/// observed content type, and decoding proceeds no further.
pub proof fn lemma_envelope_mismatch(s: Seq<u8>)
    ensures
        (sp_content_info(s) matches Ok(ci) && ci.content_type != oid_signed_data())
            ==> sp_unwrap(s) == Err::<crate::pkcs7::SignedDataView, CtlErrorView>(
            CtlErrorView::ContentType(
                match sp_content_info(s) {
                    Ok(ci) => ci.content_type,
                    Err(_) => Seq::empty(),
                },
            ),
        ),
{
}

/// Parsing base-128 tag digits from a proper prefix either agrees with the
/// full input or runs out at the cut.
proof fn lemma_tagnum_take(s: Seq<u8>, n: int, pos: int, end: int, acc: u64, count: u64)
    requires
        0 <= pos <= n <= end <= s.len(),
    ensures
        ({
            let t = s.take(n);
            sp_tagnum(s, pos, end, acc, count) matches Ok((v, p2)) ==> {
                &&& p2 <= n ==> sp_tagnum(t, pos, n, acc, count) == Ok::<(u64, int), DerError>(
                    (v, p2),
                )
                &&& p2 > n ==> sp_tagnum(t, pos, n, acc, count) == Err::<(u64, int), DerError>(
                    DerError::Truncated(n as usize),
                )
            }
        }),
    decreases end - pos,
{
    let t = s.take(n);
    match sp_tagnum(s, pos, end, acc, count) {
        Ok((v, p2)) => {
            crate::der::lemma_sp_tagnum_bounds(s, pos, end, acc, count);
            if pos >= n {
                assert(pos == n);
            } else {
                assert(t[pos] == s[pos]);
                let b = s[pos];
                if b < 0x80 {
                } else {
                    lemma_tagnum_take(
                        s,
                        n,
                        pos + 1,
                        end,
                        ((acc * 0x80 + (b - 0x80)) as u64),
                        (count + 1) as u64,
                    );
                }
            }
        },
        Err(_) => {},
    }
}

/// Parsing a length from a proper prefix, when the full input's value ends
/// past the cut, reports truncation.
proof fn lemma_len_take(s: Seq<u8>, n: int, pos: int, end: int)
    requires
        0 <= pos,
        pos <= end,
        0 < n <= end <= s.len(),
    ensures
        ({
            let t = s.take(n);
            (sp_len(s, pos, end) matches Ok((cs, ce)) && ce > n) ==> sp_len(t, pos, n) == Err::<
                (int, int),
                DerError,
            >(DerError::Truncated(pos as usize))
        }),
{
    let t = s.take(n);
    match sp_len(s, pos, end) {
        Ok((cs, ce)) => {
            if ce > n {
                if pos >= n {
                } else {
                    assert(t[pos] == s[pos]);
                    let b = s[pos];
                    if b < 0x80 {
                    } else {
                        let k = (b - 0x80) as int;
                        if n - (pos + 1) < k {
                        } else {
                            assert(pos + 1 + k <= n);
                            assert(t[pos + 1] == s[pos + 1]);
                            assert(t.subrange(pos + 1, pos + 1 + k) =~= s.subrange(
                                pos + 1,
                                pos + 1 + k,
                            ));
                        }
                    }
                }
            }
        },
        Err(_) => {},
    }
}

/// Parsing a header from a proper prefix, when the full input's value ends
/// past the cut, reports truncation.
proof fn lemma_header_take(s: Seq<u8>, n: int, pos: int, end: int)
    requires
        0 <= pos < n <= end <= s.len(),
    ensures
        ({
            let t = s.take(n);
            (sp_header(s, pos, end) matches Ok((tg, cs, ce)) && ce > n) ==> (sp_header(t, pos, n)
                matches Err(e) && e matches DerError::Truncated(_))
        }),
{
    let t = s.take(n);
    match sp_header(s, pos, end) {
        Ok((tg, cs, ce)) => {
            if ce > n {
                assert(t[pos] == s[pos]);
                let b0 = s[pos];
                let low = (b0 % 32) as u64;
                if low < 31 {
                    lemma_len_take(s, n, pos + 1, end);
                } else {
                    if pos + 1 >= n {
                    } else {
                        assert(t[pos + 1] == s[pos + 1]);
                        lemma_tagnum_take(s, n, pos + 1, end, 0, 0);
                        match sp_tagnum(s, pos + 1, end, 0, 0) {
                            Ok((v, p2)) => {
                                crate::der::lemma_sp_tagnum_bounds(s, pos + 1, end, 0, 0);
                                if p2 <= n {
                                    lemma_len_take(s, n, p2, end);
                                }
                            },
                            Err(_) => {},
                        }
                    }
                }
            }
        },
        Err(_) => {},
    }
}

/// Truncation safety: no proper non-empty prefix of a document whose
/// envelope parses decodes to anything but a truncation error; in
/// particular no prefix ever yields a partially populated value as
/// success.
pub proof fn lemma_truncation_safety(s: Seq<u8>, n: int)
    requires
        sp_content_info(s) is Ok || sp_ctl_from_der(s) is Ok,
        0 < n < s.len(),
    ensures
        sp_content_info(s.take(n)) matches Err(DerError::Truncated(_)),
        sp_unwrap(s.take(n)) matches Err(CtlErrorView::Der(DerError::Truncated(_))),
        sp_ctl_from_der(s.take(n)) matches Err(CtlErrorView::Der(DerError::Truncated(_))),
{
    let t = s.take(n);
    assert(t.len() == n);
    if !(sp_content_info(s) is Ok) {
        assert(sp_ctl_from_der(s) is Ok);
        assert(sp_unwrap(s) is Ok);
        assert(false);
    }
    match sp_header(s, 0, s.len() as int) {
        Ok((tg, cs, ce)) => {
            assert(ce == s.len());
            lemma_header_take(s, n, 0, s.len() as int);
        },
        Err(_) => {
            assert(false);
        },
    }
}

} // verus!
