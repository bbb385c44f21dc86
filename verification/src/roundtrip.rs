//! Round-trip laws: every legally constructed trust-list value, re-encoded
//! by the canonical encoder, is reproduced exactly by the parser.
//!
//! The lemmas build up from the TLV framing (tag numbers, lengths) through
//! the primitives and the lists to the whole document, ending in
//! [`lemma_ctl_round_trip`].

use vstd::prelude::*;
use vstd::arithmetic::div_mod::lemma_fundamental_div_mod;
use crate::ctl::AlgorithmIdentifierView;
use crate::ctl::AttributeView;
use crate::ctl::CertificateTrustListView;
use crate::ctl::TimeView;
use crate::ctl::TrustedSubjectView;
use crate::ctl::time_content_ok;
use crate::der::DerError;
use crate::der::RawValueView;
use crate::der::Tag;
use crate::der::be_nat;
use crate::der::int_content_ok;
use crate::der::oid_wf;
use crate::der::p128;
use crate::der::p256;
use crate::der::lemma_p128_mono;
use crate::der::lemma_p256_mono;
use crate::der::sp_header;
use crate::der::sp_len;
use crate::der::sp_tagnum;
use crate::der::tag_wf;
use crate::encode::enc_b128;
use crate::encode::enc_b128_pre;
use crate::encode::enc_len;
use crate::encode::enc_len_digits;
use crate::encode::enc_tag;
use crate::encode::enc_tlv;

verus! {

/// The bytes `b` stand in `s` at position `pos`.
pub open spec fn has_bytes(s: Seq<u8>, pos: int, b: Seq<u8>) -> bool {
    &&& 0 <= pos
    &&& pos + b.len() <= s.len()
    &&& s.subrange(pos, pos + b.len()) == b
}

/// A concatenation stands at `pos` exactly as its parts stand in turn.
pub proof fn lemma_has_bytes_split(s: Seq<u8>, pos: int, a: Seq<u8>, b: Seq<u8>)
    requires
        has_bytes(s, pos, a + b),
    ensures
        has_bytes(s, pos, a),
        has_bytes(s, pos + a.len(), b),
{
    let ab = a + b;
    assert(s.subrange(pos, pos + a.len()) =~= a) by {
        assert forall|i: int| 0 <= i < a.len() implies s.subrange(pos, pos + a.len())[i] == a[i] by {
            assert(s[pos + i] == ab[i]);
        }
    }
    assert(s.subrange(pos + a.len(), pos + a.len() + b.len()) =~= b) by {
        assert forall|i: int|
            0 <= i < b.len() implies s.subrange(pos + a.len(), pos + a.len() + b.len())[i]
            == b[i] by {
            assert(s[pos + a.len() + i] == ab[a.len() + i]);
        }
    }
}

/// The base-256 digits of a length read back as that length.
pub proof fn lemma_be_nat_digits(n: nat)
    ensures
        be_nat(enc_len_digits(n)) == n,
    decreases n,
{
    if n > 0 {
        lemma_be_nat_digits(n / 256);
        let d = enc_len_digits(n);
        assert(d.drop_last() =~= enc_len_digits(n / 256));
        assert(d.last() == n % 256);
        lemma_fundamental_div_mod(n as int, 256);
    }
}

/// A positive length has at least one digit and no leading zero digit.
pub proof fn lemma_enc_len_digits_first(n: nat)
    requires
        n >= 1,
    ensures
        enc_len_digits(n).len() >= 1,
        enc_len_digits(n)[0] != 0,
    decreases n,
{
    if n >= 256 {
        lemma_enc_len_digits_first(n / 256);
        assert(enc_len_digits(n)[0] == enc_len_digits(n / 256)[0]);
    } else {
        assert(n / 256 == 0) by (nonlinear_arith)
            requires
                1 <= n < 256,
        ;
        assert(enc_len_digits((n / 256) as nat) =~= Seq::<u8>::empty());
        assert(enc_len_digits(n) =~= Seq::<u8>::empty() + seq![(n % 256) as u8]);
        lemma_fundamental_div_mod(n as int, 256);
    }
}

/// A one-digit length is below 256.
pub proof fn lemma_enc_len_digits_single(n: nat)
    requires
        enc_len_digits(n).len() == 1,
    ensures
        n < 256,
{
    if n >= 256 {
        lemma_enc_len_digits_first(n / 256);
        assert(enc_len_digits(n).len() >= 2);
    }
}

/// The length octets have between one and nine bytes for any supported
/// length.
pub proof fn lemma_enc_len_len(n: nat)
    requires
        n < p256(8),
    ensures
        1 <= enc_len(n).len() <= 9,
{
    if n >= 128 {
        crate::encode::lemma_enc_len_digits_le(n, 8);
        lemma_enc_len_digits_first(n);
    }
}

/// Parsing the canonical length octets yields the announced window.
#[verifier::rlimit(60)]
pub proof fn lemma_parse_len_of_enc(s: Seq<u8>, pos: int, end: int, clen: nat)
    requires
        clen < p256(8),
        has_bytes(s, pos, enc_len(clen)),
        pos + enc_len(clen).len() + clen <= end,
        end <= s.len(),
    ensures
        sp_len(s, pos, end) == Ok::<(int, int), DerError>(
            (pos + enc_len(clen).len(), pos + enc_len(clen).len() + clen),
        ),
{
    let e = enc_len(clen);
    assert(s[pos] == e[0]);
    if clen < 128 {
        assert(e =~= seq![clen as u8]);
        assert(s[pos] == clen);
    } else {
        let d = enc_len_digits(clen);
        crate::encode::lemma_enc_len_digits_le(clen, 8);
        lemma_enc_len_digits_first(clen);
        let k = d.len() as int;
        assert(e == seq![((0x80 + k) as u8)] + d);
        assert(s[pos] == 0x80 + k);
        lemma_has_bytes_split(s, pos, seq![((0x80 + k) as u8)], d);
        assert(has_bytes(s, pos + 1, d));
        assert(s.subrange(pos + 1, pos + 1 + k) == d);
        assert(s[pos + 1] == d[0]);
        assert(s[pos + 1] != 0);
        if k == 1 {
            lemma_enc_len_digits_single(clen);
            assert(d[0] == clen % 256);
            lemma_fundamental_div_mod(clen as int, 256);
            assert(d[0] >= 128);
        }
        lemma_be_nat_digits(clen);
        assert(be_nat(s.subrange(pos + 1, pos + 1 + k)) == clen);
    }
}

/// A tag number's leading digits bound its value.
pub proof fn lemma_pre_bound(m: nat)
    ensures
        m < p128(enc_b128_pre(m).len()),
    decreases m,
{
    if m > 0 {
        lemma_pre_bound(m / 128);
        let g = enc_b128_pre(m / 128).len();
        assert(enc_b128_pre(m).len() == g + 1);
        lemma_fundamental_div_mod(m as int, 128);
        assert(m < 128 * p128(g)) by (nonlinear_arith)
            requires
                (m / 128) < p128(g),
                m == 128 * (m / 128) + m % 128,
                m % 128 < 128,
        ;
        assert(p128(g + 1) == 128 * p128(g));
    }
}

/// A value below `p128(k)` has at most `k` leading digits.
pub proof fn lemma_pre_len_le(m: nat, k: nat)
    requires
        m < p128(k),
    ensures
        enc_b128_pre(m).len() <= k,
    decreases k,
{
    if m > 0 {
        assert(k >= 1);
        assert(p128(k) == 128 * p128((k - 1) as nat));
        assert(m / 128 < p128((k - 1) as nat)) by (nonlinear_arith)
            requires
                m < 128 * p128((k - 1) as nat),
                m >= 0,
        ;
        lemma_pre_len_le(m / 128, (k - 1) as nat);
    }
}

/// Leading digits never start with the redundant byte 0x80.
pub proof fn lemma_pre_first(m: nat)
    requires
        m >= 1,
    ensures
        enc_b128_pre(m).len() >= 1,
        enc_b128_pre(m)[0] != 0x80,
    decreases m,
{
    if m >= 128 {
        lemma_pre_first(m / 128);
        assert(enc_b128_pre(m)[0] == enc_b128_pre(m / 128)[0]);
    } else {
        assert(m / 128 == 0) by (nonlinear_arith)
            requires
                1 <= m < 128,
        ;
        assert(enc_b128_pre((m / 128) as nat) =~= Seq::<u8>::empty());
        assert(enc_b128_pre(m) =~= Seq::<u8>::empty() + seq![((m % 128 + 0x80) as u8)]);
        assert(m % 128 == m) by (nonlinear_arith)
            requires
                1 <= m < 128,
        ;
    }
}

/// Parsing the leading digits of a tag number carries the accumulated
/// value through.
#[verifier::rlimit(60)]
pub proof fn lemma_tagnum_pre(s: Seq<u8>, pos: int, end: int, m: nat, acc: u64, count: u64)
    requires
        has_bytes(s, pos, enc_b128_pre(m)),
        pos + enc_b128_pre(m).len() < end,
        end <= s.len(),
        count + enc_b128_pre(m).len() <= 8,
        acc < p128(count as nat),
    ensures
        ({
            let g = enc_b128_pre(m).len();
            &&& acc * p128(g) + m < p128((count + g) as nat)
            &&& sp_tagnum(s, pos, end, acc, count) == sp_tagnum(
                s,
                pos + g,
                end,
                (acc * p128(g) + m) as u64,
                (count + g) as u64,
            )
        }),
    decreases m,
{
    if m == 0 {
        assert(enc_b128_pre(0) =~= Seq::<u8>::empty());
        assert(acc * p128(0) + 0 == acc * 1);
        assert(acc * 1 == acc);
    } else {
        let g = enc_b128_pre(m).len();
        let g0 = enc_b128_pre(m / 128).len();
        assert(enc_b128_pre(m) == enc_b128_pre(m / 128) + seq![((m % 128 + 0x80) as u8)]);
        assert(g == g0 + 1);
        lemma_has_bytes_split(s, pos, enc_b128_pre(m / 128), seq![((m % 128 + 0x80) as u8)]);
        lemma_pre_bound(m / 128);
        lemma_tagnum_pre(s, pos, end, m / 128, acc, count);
        let acc1: nat = (acc * p128(g0) + m / 128) as nat;
        assert(acc1 < p128((count + g0) as nat));
        lemma_p128_mono((count + g0) as nat, 8);
        assert(p128(8) == 0x100000000000000) by {
            reveal_with_fuel(p128, 10);
        }
        assert(acc1 < 0x100000000000000);
        assert(s[pos + g0] == (m % 128 + 0x80) as u8) by {
            assert(has_bytes(s, pos + g0, seq![((m % 128 + 0x80) as u8)]));
            assert(s.subrange(pos + g0, pos + g0 + 1)[0] == s[pos + g0]);
        }
        assert(m % 128 < 128);
        let b = s[pos + g0];
        assert(b == m % 128 + 0x80);
        assert(b >= 0x80);
        assert((b - 0x80) as u8 == m % 128);
        // one unfolding step of the parse at pos + g0
        assert(pos + g0 < end);
        assert(count + g0 < 9);
        assert(sp_tagnum(s, pos + g0, end, acc1 as u64, (count + g0) as u64) == sp_tagnum(
            s,
            pos + g0 + 1,
            end,
            ((acc1 * 0x80 + (b - 0x80)) as u64),
            (count + g0 + 1) as u64,
        ));
        // the accumulated value after the extra digit
        lemma_fundamental_div_mod(m as int, 128);
        assert(p128(g0 + 1) == 128 * p128(g0));
        assert(acc1 * 128 + m % 128 == acc * p128(g) + m) by (nonlinear_arith)
            requires
                acc1 == acc * p128(g0) + m / 128,
                m == 128 * (m / 128) + m % 128,
                p128(g as nat) == 128 * p128(g0 as nat),
                g == g0 + 1,
        ;
        assert(acc * p128(g) + m < p128((count + g) as nat)) by (nonlinear_arith)
            requires
                acc1 < p128((count + g0) as nat),
                acc * p128(g) + m == acc1 * 128 + m % 128,
                m % 128 < 128,
                p128((count + g) as nat) == 128 * p128((count + g0) as nat),
        ;
        assert(p128((count + g) as nat) == 128 * p128((count + g0) as nat));
    }
}

/// Parsing the canonical base-128 digits of a tag number yields that
/// number.
#[verifier::rlimit(60)]
pub proof fn lemma_tagnum_of_enc(s: Seq<u8>, pos: int, end: int, n: u64)
    requires
        n < 0x8000000000000000,
        has_bytes(s, pos, enc_b128(n as nat)),
        pos + enc_b128(n as nat).len() <= end,
        end <= s.len(),
    ensures
        sp_tagnum(s, pos, end, 0, 0) == Ok::<(u64, int), DerError>(
            (n, pos + enc_b128(n as nat).len()),
        ),
{
    let m: nat = (n as nat) / 128;
    let g0 = enc_b128_pre(m).len();
    assert(enc_b128(n as nat) == enc_b128_pre(m) + seq![((n as nat % 128) as u8)]);
    lemma_has_bytes_split(s, pos, enc_b128_pre(m), seq![((n as nat % 128) as u8)]);
    assert(p128(9) == 0x8000000000000000) by {
        reveal_with_fuel(p128, 10);
    }
    assert(p128(8) == 0x100000000000000) by {
        reveal_with_fuel(p128, 10);
    }
    assert(p128(9) == 128 * p128(8));
    assert(m < p128(8)) by (nonlinear_arith)
        requires
            (n as nat) < 128 * p128(8),
            m == (n as nat) / 128,
    ;
    lemma_pre_len_le(m, 8);
    lemma_tagnum_pre(s, pos, end, m, 0, 0);
    let acc1: nat = (0 * p128(g0) + m) as nat;
    assert(acc1 == m);
    assert(s[pos + g0] == (n as nat % 128) as u8) by {
        assert(has_bytes(s, pos + g0, seq![((n as nat % 128) as u8)]));
        assert(s.subrange(pos + g0, pos + g0 + 1)[0] == s[pos + g0]);
    }
    let b = s[pos + g0];
    assert(b < 0x80);
    assert(pos + g0 < end);
    assert(g0 < 9);
    assert(sp_tagnum(s, pos + g0, end, m as u64, g0 as u64) == Ok::<(u64, int), DerError>(
        (((m * 0x80 + b) as u64), pos + g0 + 1),
    ));
    lemma_fundamental_div_mod(n as int, 128);
    assert(m * 128 + (n as nat % 128) == n) by (nonlinear_arith)
        requires
            n as int == 128 * ((n as int) / 128) + (n as int) % 128,
            m == (n as nat) / 128,
    ;
}

/// The identifier octets have between one and eleven bytes.
pub proof fn lemma_enc_tag_len(t: Tag)
    requires
        tag_wf(t),
    ensures
        1 <= enc_tag(t).len() <= 11,
{
    if t.number >= 31 {
        assert(p128(9) == 0x8000000000000000) by {
            reveal_with_fuel(p128, 10);
        }
        assert(p128(8) == 0x100000000000000) by {
            reveal_with_fuel(p128, 10);
        }
        assert(p128(9) == 128 * p128(8));
        let m: nat = (t.number as nat) / 128;
        assert(m < p128(8)) by (nonlinear_arith)
            requires
                (t.number as nat) < 128 * p128(8),
                m == (t.number as nat) / 128,
        ;
        lemma_pre_len_le(m, 8);
    }
}

/// Parsing the canonical identifier and length octets yields the tag and
/// the announced content window.
#[verifier::rlimit(60)]
pub proof fn lemma_parse_header_of_enc(s: Seq<u8>, pos: int, end: int, t: Tag, clen: nat)
    requires
        tag_wf(t),
        clen < p256(8),
        has_bytes(s, pos, enc_tag(t) + enc_len(clen)),
        pos + (enc_tag(t) + enc_len(clen)).len() + clen <= end,
        end <= s.len(),
    ensures
        sp_header(s, pos, end) == Ok::<(Tag, int, int), DerError>(
            (
                t,
                pos + (enc_tag(t) + enc_len(clen)).len(),
                pos + (enc_tag(t) + enc_len(clen)).len() + clen,
            ),
        ),
{
    lemma_has_bytes_split(s, pos, enc_tag(t), enc_len(clen));
    lemma_enc_len_len(clen);
    let cons_bit: u8 = if t.constructed {
        0x20
    } else {
        0
    };
    let cons_val: int = if t.constructed {
        1
    } else {
        0
    };
    if t.number < 31 {
        let b0v = (t.class * 0x40 + cons_bit + t.number) as u8;
        assert(enc_tag(t) == seq![b0v]);
        assert(s[pos] == b0v) by {
            assert(s.subrange(pos, pos + 1)[0] == s[pos]);
        }
        assert(b0v == t.class * 0x40 + cons_bit + t.number);
        assert(b0v / 64 == t.class && (b0v / 32) % 2 == cons_val && b0v % 32 == t.number) by (
        nonlinear_arith)
            requires
                b0v == t.class * 64 + cons_bit + t.number,
                t.class < 4,
                cons_bit == 32 * cons_val,
                0 <= cons_val <= 1,
                t.number < 31,
        ;
        lemma_parse_len_of_enc(s, pos + 1, end, clen);
    } else {
        let b0v = (t.class * 0x40 + cons_bit + 31) as u8;
        assert(enc_tag(t) == seq![b0v] + enc_b128(t.number as nat));
        lemma_has_bytes_split(s, pos, seq![b0v], enc_b128(t.number as nat));
        assert(s[pos] == b0v) by {
            assert(s.subrange(pos, pos + 1)[0] == s[pos]);
        }
        assert(b0v / 64 == t.class && (b0v / 32) % 2 == cons_val && b0v % 32 == 31) by (
        nonlinear_arith)
            requires
                b0v == t.class * 64 + cons_bit + 31,
                t.class < 4,
                cons_bit == 32 * cons_val,
                0 <= cons_val <= 1,
        ;
        // the first extension byte is not 0x80
        let eb = enc_b128(t.number as nat);
        assert(s[pos + 1] == eb[0]) by {
            assert(s.subrange(pos + 1, pos + 1 + eb.len())[0] == s[pos + 1]);
        }
        let m: nat = (t.number as nat) / 128;
        assert(eb == enc_b128_pre(m) + seq![((t.number as nat % 128) as u8)]);
        if m == 0 {
            assert(enc_b128_pre(0) =~= Seq::<u8>::empty());
            assert(eb[0] == (t.number as nat % 128) as u8);
            assert(t.number as nat % 128 < 128);
            assert(eb[0] != 0x80);
        } else {
            lemma_pre_first(m);
            assert(eb[0] == enc_b128_pre(m)[0]);
            assert(eb[0] != 0x80);
        }
        assert(pos + 1 < end);
        lemma_tagnum_of_enc(s, pos + 1, end, t.number);
        lemma_parse_len_of_enc(s, pos + 1 + eb.len(), end, clen);
    }
}

/// Parsing at a canonical TLV yields its tag and its content window, and
/// the content bytes stand there verbatim.
#[verifier::rlimit(60)]
pub proof fn lemma_parse_tlv_of_enc(s: Seq<u8>, pos: int, end: int, t: Tag, c: Seq<u8>)
    requires
        tag_wf(t),
        c.len() < p256(8),
        has_bytes(s, pos, enc_tlv(t, c)),
        pos + enc_tlv(t, c).len() <= end,
        end <= s.len(),
    ensures
        ({
            let hl = (enc_tag(t) + enc_len(c.len())).len();
            &&& enc_tlv(t, c).len() == hl + c.len()
            &&& 2 <= hl <= 20
            &&& sp_header(s, pos, end) == Ok::<(Tag, int, int), DerError>(
                (t, pos + hl, pos + hl + c.len()),
            )
            &&& has_bytes(s, pos + hl, c)
            &&& s.subrange(pos + hl, pos + hl + c.len()) == c
        }),
{
    assert(enc_tlv(t, c) == (enc_tag(t) + enc_len(c.len())) + c);
    lemma_has_bytes_split(s, pos, enc_tag(t) + enc_len(c.len()), c);
    lemma_enc_tag_len(t);
    lemma_enc_len_len(c.len());
    lemma_parse_header_of_enc(s, pos, end, t, c.len());
}

/// Parsing a canonical OBJECT IDENTIFIER yields its content.
pub proof fn lemma_parse_oid_of_enc(s: Seq<u8>, pos: int, end: int, c: Seq<u8>)
    requires
        oid_wf(c),
        c.len() < p256(8),
        has_bytes(s, pos, crate::encode::enc_oid(c)),
        pos + crate::encode::enc_oid(c).len() <= end,
        end <= s.len(),
    ensures
        crate::der::sp_oid(s, pos, end) == Ok::<(Seq<u8>, int), DerError>(
            (c, pos + crate::encode::enc_oid(c).len()),
        ),
{
    lemma_parse_tlv_of_enc(s, pos, end, crate::der::uni_prim(crate::der::TAG_OID), c);
}

/// Parsing a canonical OCTET STRING yields its content.
pub proof fn lemma_parse_octets_of_enc(s: Seq<u8>, pos: int, end: int, c: Seq<u8>)
    requires
        c.len() < p256(8),
        has_bytes(s, pos, crate::encode::enc_octets(c)),
        pos + crate::encode::enc_octets(c).len() <= end,
        end <= s.len(),
    ensures
        crate::der::sp_octet_string(s, pos, end) == Ok::<(Seq<u8>, int), DerError>(
            (c, pos + crate::encode::enc_octets(c).len()),
        ),
{
    lemma_parse_tlv_of_enc(s, pos, end, crate::der::uni_prim(crate::der::TAG_OCTET_STRING), c);
}

/// Parsing a canonical INTEGER yields its content.
pub proof fn lemma_parse_integer_of_enc(s: Seq<u8>, pos: int, end: int, c: Seq<u8>)
    requires
        int_content_ok(c),
        c.len() < p256(8),
        has_bytes(s, pos, crate::encode::enc_integer(c)),
        pos + crate::encode::enc_integer(c).len() <= end,
        end <= s.len(),
    ensures
        crate::der::sp_integer(s, pos, end) == Ok::<(Seq<u8>, int), DerError>(
            (c, pos + crate::encode::enc_integer(c).len()),
        ),
{
    lemma_parse_tlv_of_enc(s, pos, end, crate::der::uni_prim(crate::der::TAG_INTEGER), c);
}

/// Parsing a canonical time value yields it back.
pub proof fn lemma_parse_time_of_enc(s: Seq<u8>, pos: int, end: int, tv: TimeView)
    requires
        time_content_ok(tv.kind, tv.value),
        has_bytes(s, pos, crate::encode::enc_time(tv)),
        pos + crate::encode::enc_time(tv).len() <= end,
        end <= s.len(),
    ensures
        crate::ctl::sp_time(s, pos, end) == Ok::<(TimeView, int), DerError>(
            (tv, pos + crate::encode::enc_time(tv).len()),
        ),
{
    crate::der::lemma_p256_8();
    let number = if tv.kind is Utc {
        crate::der::TAG_UTC_TIME
    } else {
        crate::der::TAG_GENERALIZED_TIME
    };
    lemma_parse_tlv_of_enc(s, pos, end, crate::der::uni_prim(number), tv.value);
}

/// Parsing a canonical undecoded value yields it back.
pub proof fn lemma_parse_raw_of_enc(s: Seq<u8>, pos: int, end: int, rv: RawValueView)
    requires
        tag_wf(rv.tag),
        rv.content.len() < p256(8),
        has_bytes(s, pos, crate::encode::enc_raw(rv)),
        pos + crate::encode::enc_raw(rv).len() <= end,
        end <= s.len(),
    ensures
        crate::der::sp_raw(s, pos, end) == Ok::<(RawValueView, int), DerError>(
            (rv, pos + crate::encode::enc_raw(rv).len()),
        ),
{
    lemma_parse_tlv_of_enc(s, pos, end, rv.tag, rv.content);
}

/// A legally constructed identifier content: well-formed base 128, within
/// the supported size.
pub open spec fn wf_oid_c(c: Seq<u8>) -> bool {
    oid_wf(c) && c.len() < p256(7)
}

/// A legally constructed octet string content: within the supported size.
pub open spec fn wf_octets_c(c: Seq<u8>) -> bool {
    c.len() < p256(7)
}

/// A legally constructed integer content: minimal, within the supported
/// size.
pub open spec fn wf_int_c(c: Seq<u8>) -> bool {
    int_content_ok(c) && c.len() < p256(7)
}

/// A legally constructed time: canonical content for its kind.
pub open spec fn wf_time(t: TimeView) -> bool {
    time_content_ok(t.kind, t.value)
}

/// A legally constructed undecoded value: a representable tag, content
/// within the supported size.
pub open spec fn wf_raw(rv: RawValueView) -> bool {
    tag_wf(rv.tag) && rv.content.len() < p256(7)
}

/// A legally constructed algorithm identifier.
pub open spec fn wf_algid(a: AlgorithmIdentifierView) -> bool {
    &&& wf_oid_c(a.oid)
    &&& match a.params {
        Some(rv) => wf_raw(rv),
        None => true,
    }
    &&& crate::encode::enc_algid_content(a).len() < p256(7)
}

/// A legally constructed attribute: a non-empty value set, every value
/// legal, all within the supported sizes.
pub open spec fn wf_attr(a: AttributeView) -> bool {
    &&& wf_oid_c(a.oid)
    &&& a.values.len() >= 1
    &&& forall|i: int| 0 <= i < a.values.len() ==> wf_raw(#[trigger] a.values[i])
    &&& crate::encode::enc_raw_list(a.values).len() < p256(7)
    &&& crate::encode::enc_attribute_content(a).len() < p256(7)
}

/// A legally constructed attribute list.
pub open spec fn wf_attrs(attrs: Seq<AttributeView>) -> bool {
    &&& forall|i: int| 0 <= i < attrs.len() ==> wf_attr(#[trigger] attrs[i])
    &&& crate::encode::enc_attr_list(attrs).len() < p256(7)
}

/// A legally constructed trusted subject.
pub open spec fn wf_subject(v: TrustedSubjectView) -> bool {
    &&& wf_octets_c(v.identifier)
    &&& match v.attributes {
        Some(attrs) => wf_attrs(attrs),
        None => true,
    }
    &&& crate::encode::enc_subject_content(v).len() < p256(7)
}

/// A legally constructed trusted-subject list.
pub open spec fn wf_subject_seq(subs: Seq<TrustedSubjectView>) -> bool {
    &&& forall|i: int| 0 <= i < subs.len() ==> wf_subject(#[trigger] subs[i])
    &&& crate::encode::enc_subject_list(subs).len() < p256(7)
}

/// A legally constructed certificate trust list: every component legal and
/// within the supported sizes.
pub open spec fn wf_ctl(c: CertificateTrustListView) -> bool {
    &&& forall|i: int| 0 <= i < c.subject_usage.len() ==> wf_oid_c(#[trigger] c.subject_usage[i])
    &&& crate::encode::enc_oid_list(c.subject_usage).len() < p256(7)
    &&& match c.list_identifier {
        Some(li) => wf_octets_c(li),
        None => true,
    }
    &&& match c.sequence_number {
        Some(sn) => wf_int_c(sn),
        None => true,
    }
    &&& wf_time(c.this_update)
    &&& match c.next_update {
        Some(nu) => wf_time(nu),
        None => true,
    }
    &&& wf_algid(c.subject_algorithm)
    &&& match c.trusted_subjects {
        Some(subs) => wf_subject_seq(subs),
        None => true,
    }
    &&& match c.ctl_extensions {
        Some(ext) => wf_raw(ext),
        None => true,
    }
    &&& crate::encode::enc_ctl_fields(c).len() < p256(7)
}

/// Parsing the canonical encoding of an identifier list, in a window it
/// fills exactly, yields the list.
#[verifier::rlimit(60)]
pub proof fn lemma_parse_oid_list_of_enc(s: Seq<u8>, pos: int, items: Seq<Seq<u8>>)
    requires
        forall|i: int| 0 <= i < items.len() ==> wf_oid_c(#[trigger] items[i]),
        has_bytes(s, pos, crate::encode::enc_oid_list(items)),
        pos + crate::encode::enc_oid_list(items).len() <= s.len(),
    ensures
        crate::ctl::sp_oid_list(s, pos, pos + crate::encode::enc_oid_list(items).len()) == Ok::<
            Seq<Seq<u8>>,
            DerError,
        >(items),
    decreases items.len(),
{
    let end = pos + crate::encode::enc_oid_list(items).len();
    if items.len() == 0 {
        assert(crate::encode::enc_oid_list(items).len() == 0);
        assert(Seq::<Seq<u8>>::empty() =~= items);
    } else {
        let e0 = crate::encode::enc_oid(items[0]);
        assert(crate::encode::enc_oid_list(items) == e0 + crate::encode::enc_oid_list(
            items.drop_first(),
        ));
        lemma_has_bytes_split(s, pos, e0, crate::encode::enc_oid_list(items.drop_first()));
        lemma_p256_mono(7, 8);
        lemma_parse_oid_of_enc(s, pos, end, items[0]);
        assert forall|i: int| 0 <= i < items.drop_first().len() implies wf_oid_c(
            #[trigger] items.drop_first()[i],
        ) by {
            assert(items.drop_first()[i] == items[i + 1]);
        }
        lemma_parse_oid_list_of_enc(s, pos + e0.len(), items.drop_first());
        lemma_parse_tlv_of_enc(
            s,
            pos,
            end,
            crate::der::uni_prim(crate::der::TAG_OID),
            items[0],
        );
        assert(pos < end);
        assert(seq![items[0]] + items.drop_first() =~= items);
    }
}

/// Parsing the canonical encoding of an undecoded-value list, in a window
/// it fills exactly, yields the list.
#[verifier::rlimit(60)]
pub proof fn lemma_parse_raw_list_of_enc(s: Seq<u8>, pos: int, items: Seq<RawValueView>)
    requires
        forall|i: int| 0 <= i < items.len() ==> wf_raw(#[trigger] items[i]),
        has_bytes(s, pos, crate::encode::enc_raw_list(items)),
        pos + crate::encode::enc_raw_list(items).len() <= s.len(),
    ensures
        crate::ctl::sp_raw_list(s, pos, pos + crate::encode::enc_raw_list(items).len()) == Ok::<
            Seq<RawValueView>,
            DerError,
        >(items),
    decreases items.len(),
{
    let end = pos + crate::encode::enc_raw_list(items).len();
    if items.len() == 0 {
        assert(crate::encode::enc_raw_list(items).len() == 0);
        assert(Seq::<RawValueView>::empty() =~= items);
    } else {
        let e0 = crate::encode::enc_raw(items[0]);
        assert(crate::encode::enc_raw_list(items) == e0 + crate::encode::enc_raw_list(
            items.drop_first(),
        ));
        lemma_has_bytes_split(s, pos, e0, crate::encode::enc_raw_list(items.drop_first()));
        lemma_p256_mono(7, 8);
        lemma_parse_raw_of_enc(s, pos, end, items[0]);
        assert forall|i: int| 0 <= i < items.drop_first().len() implies wf_raw(
            #[trigger] items.drop_first()[i],
        ) by {
            assert(items.drop_first()[i] == items[i + 1]);
        }
        lemma_parse_raw_list_of_enc(s, pos + e0.len(), items.drop_first());
        lemma_parse_tlv_of_enc(s, pos, end, items[0].tag, items[0].content);
        assert(pos < end);
        assert(seq![items[0]] + items.drop_first() =~= items);
    }
}

/// A legal undecoded value's encoding stays within the supported size.
pub proof fn lemma_enc_raw_len_bound(rv: RawValueView)
    requires
        wf_raw(rv),
    ensures
        crate::encode::enc_raw(rv).len() < p256(8),
        crate::encode::enc_raw(rv).len() >= 2,
{
    lemma_enc_tag_len(rv.tag);
    lemma_p256_mono(7, 8);
    lemma_enc_len_len(rv.content.len());
    crate::der::lemma_p256_8();
    assert(p256(7) == 0x100000000000000) by {
        reveal_with_fuel(p256, 9);
    }
}

/// Parsing a canonical algorithm identifier yields it back.
#[verifier::rlimit(60)]
pub proof fn lemma_parse_algid_of_enc(s: Seq<u8>, pos: int, end: int, a: AlgorithmIdentifierView)
    requires
        wf_algid(a),
        has_bytes(s, pos, crate::encode::enc_algid(a)),
        pos + crate::encode::enc_algid(a).len() <= end,
        end <= s.len(),
    ensures
        crate::ctl::sp_algid(s, pos, end) == Ok::<(AlgorithmIdentifierView, int), DerError>(
            (a, pos + crate::encode::enc_algid(a).len()),
        ),
{
    lemma_p256_mono(7, 8);
    let content = crate::encode::enc_algid_content(a);
    lemma_parse_tlv_of_enc(
        s,
        pos,
        end,
        crate::der::uni_cons(crate::der::TAG_SEQUENCE),
        content,
    );
    let hl = (enc_tag(crate::der::uni_cons(crate::der::TAG_SEQUENCE)) + enc_len(
        content.len(),
    )).len();
    let cs = pos + hl;
    let ce = cs + content.len();
    let eo = crate::encode::enc_oid(a.oid);
    match a.params {
        None => {
            assert(content == eo + Seq::<u8>::empty());
            assert(content =~= eo);
            lemma_parse_oid_of_enc(s, cs, ce, a.oid);
        },
        Some(rv) => {
            assert(content == eo + crate::encode::enc_raw(rv));
            lemma_has_bytes_split(s, cs, eo, crate::encode::enc_raw(rv));
            lemma_parse_oid_of_enc(s, cs, ce, a.oid);
            lemma_enc_raw_len_bound(rv);
            lemma_parse_raw_of_enc(s, cs + eo.len(), ce, rv);
        },
    }
}

/// Parsing a canonical attribute yields it back.
#[verifier::rlimit(60)]
pub proof fn lemma_parse_attribute_of_enc(s: Seq<u8>, pos: int, end: int, a: AttributeView)
    requires
        wf_attr(a),
        has_bytes(s, pos, crate::encode::enc_attribute(a)),
        pos + crate::encode::enc_attribute(a).len() <= end,
        end <= s.len(),
    ensures
        crate::ctl::sp_attribute(s, pos, end) == Ok::<(AttributeView, int), DerError>(
            (a, pos + crate::encode::enc_attribute(a).len()),
        ),
{
    lemma_p256_mono(7, 8);
    let content = crate::encode::enc_attribute_content(a);
    lemma_parse_tlv_of_enc(
        s,
        pos,
        end,
        crate::der::uni_cons(crate::der::TAG_SEQUENCE),
        content,
    );
    let hl = (enc_tag(crate::der::uni_cons(crate::der::TAG_SEQUENCE)) + enc_len(
        content.len(),
    )).len();
    let cs = pos + hl;
    let ce = cs + content.len();
    let eo = crate::encode::enc_oid(a.oid);
    let vlist = crate::encode::enc_raw_list(a.values);
    let eset = enc_tlv(crate::der::uni_cons(crate::der::TAG_SET), vlist);
    assert(content == eo + eset);
    lemma_has_bytes_split(s, cs, eo, eset);
    lemma_parse_oid_of_enc(s, cs, ce, a.oid);
    let p = cs + eo.len();
    lemma_parse_tlv_of_enc(s, p, ce, crate::der::uni_cons(crate::der::TAG_SET), vlist);
    let hl2 = (enc_tag(crate::der::uni_cons(crate::der::TAG_SET)) + enc_len(vlist.len())).len();
    let cs2 = p + hl2;
    lemma_parse_raw_list_of_enc(s, cs2, a.values);
}

/// Parsing the canonical encoding of an attribute list, in a window it
/// fills exactly, yields the list.
#[verifier::rlimit(60)]
pub proof fn lemma_parse_attr_list_of_enc(s: Seq<u8>, pos: int, items: Seq<AttributeView>)
    requires
        forall|i: int| 0 <= i < items.len() ==> wf_attr(#[trigger] items[i]),
        has_bytes(s, pos, crate::encode::enc_attr_list(items)),
        pos + crate::encode::enc_attr_list(items).len() <= s.len(),
    ensures
        crate::ctl::sp_attr_list(s, pos, pos + crate::encode::enc_attr_list(items).len()) == Ok::<
            Seq<AttributeView>,
            DerError,
        >(items),
    decreases items.len(),
{
    let end = pos + crate::encode::enc_attr_list(items).len();
    if items.len() == 0 {
        assert(crate::encode::enc_attr_list(items).len() == 0);
        assert(Seq::<AttributeView>::empty() =~= items);
    } else {
        let e0 = crate::encode::enc_attribute(items[0]);
        assert(crate::encode::enc_attr_list(items) == e0 + crate::encode::enc_attr_list(
            items.drop_first(),
        ));
        lemma_has_bytes_split(s, pos, e0, crate::encode::enc_attr_list(items.drop_first()));
        lemma_parse_attribute_of_enc(s, pos, end, items[0]);
        assert forall|i: int| 0 <= i < items.drop_first().len() implies wf_attr(
            #[trigger] items.drop_first()[i],
        ) by {
            assert(items.drop_first()[i] == items[i + 1]);
        }
        lemma_parse_attr_list_of_enc(s, pos + e0.len(), items.drop_first());
        lemma_p256_mono(7, 8);
        lemma_parse_tlv_of_enc(
            s,
            pos,
            end,
            crate::der::uni_cons(crate::der::TAG_SEQUENCE),
            crate::encode::enc_attribute_content(items[0]),
        );
        assert(pos < end);
        assert(seq![items[0]] + items.drop_first() =~= items);
    }
}

/// Parsing a canonical trusted subject yields it back.
#[verifier::rlimit(60)]
pub proof fn lemma_parse_subject_of_enc(s: Seq<u8>, pos: int, end: int, v: TrustedSubjectView)
    requires
        wf_subject(v),
        has_bytes(s, pos, crate::encode::enc_subject(v)),
        pos + crate::encode::enc_subject(v).len() <= end,
        end <= s.len(),
    ensures
        crate::ctl::sp_subject(s, pos, end) == Ok::<(TrustedSubjectView, int), DerError>(
            (v, pos + crate::encode::enc_subject(v).len()),
        ),
{
    lemma_p256_mono(7, 8);
    let content = crate::encode::enc_subject_content(v);
    lemma_parse_tlv_of_enc(
        s,
        pos,
        end,
        crate::der::uni_cons(crate::der::TAG_SEQUENCE),
        content,
    );
    let hl = (enc_tag(crate::der::uni_cons(crate::der::TAG_SEQUENCE)) + enc_len(
        content.len(),
    )).len();
    let cs = pos + hl;
    let ce = cs + content.len();
    let eo = crate::encode::enc_octets(v.identifier);
    match v.attributes {
        None => {
            assert(content == eo + Seq::<u8>::empty());
            assert(content =~= eo);
            lemma_parse_octets_of_enc(s, cs, ce, v.identifier);
        },
        Some(attrs) => {
            let alist = crate::encode::enc_attr_list(attrs);
            let eset = enc_tlv(crate::der::uni_cons(crate::der::TAG_SET), alist);
            assert(content == eo + eset);
            lemma_has_bytes_split(s, cs, eo, eset);
            lemma_parse_octets_of_enc(s, cs, ce, v.identifier);
            let p = cs + eo.len();
            lemma_parse_tlv_of_enc(s, p, ce, crate::der::uni_cons(crate::der::TAG_SET), alist);
            let hl2 = (enc_tag(crate::der::uni_cons(crate::der::TAG_SET)) + enc_len(
                alist.len(),
            )).len();
            let cs2 = p + hl2;
            lemma_parse_attr_list_of_enc(s, cs2, attrs);
        },
    }
}

/// Parsing the canonical encoding of a trusted-subject list, in a window
/// it fills exactly, yields the list.
#[verifier::rlimit(60)]
pub proof fn lemma_parse_subject_list_of_enc(s: Seq<u8>, pos: int, items: Seq<TrustedSubjectView>)
    requires
        forall|i: int| 0 <= i < items.len() ==> wf_subject(#[trigger] items[i]),
        has_bytes(s, pos, crate::encode::enc_subject_list(items)),
        pos + crate::encode::enc_subject_list(items).len() <= s.len(),
    ensures
        crate::ctl::sp_subject_list(s, pos, pos + crate::encode::enc_subject_list(items).len())
            == Ok::<Seq<TrustedSubjectView>, DerError>(items),
    decreases items.len(),
{
    let end = pos + crate::encode::enc_subject_list(items).len();
    if items.len() == 0 {
        assert(crate::encode::enc_subject_list(items).len() == 0);
        assert(Seq::<TrustedSubjectView>::empty() =~= items);
    } else {
        let e0 = crate::encode::enc_subject(items[0]);
        assert(crate::encode::enc_subject_list(items) == e0 + crate::encode::enc_subject_list(
            items.drop_first(),
        ));
        lemma_has_bytes_split(s, pos, e0, crate::encode::enc_subject_list(items.drop_first()));
        lemma_parse_subject_of_enc(s, pos, end, items[0]);
        assert forall|i: int| 0 <= i < items.drop_first().len() implies wf_subject(
            #[trigger] items.drop_first()[i],
        ) by {
            assert(items.drop_first()[i] == items[i + 1]);
        }
        lemma_parse_subject_list_of_enc(s, pos + e0.len(), items.drop_first());
        lemma_p256_mono(7, 8);
        lemma_parse_tlv_of_enc(
            s,
            pos,
            end,
            crate::der::uni_cons(crate::der::TAG_SEQUENCE),
            crate::encode::enc_subject_content(items[0]),
        );
        assert(pos < end);
        assert(seq![items[0]] + items.drop_first() =~= items);
    }
}


/// A DEFAULT version applies whenever the next value is not an INTEGER.
#[verifier::rlimit(60)]
proof fn lemma_version_default(s: Seq<u8>, pos: int, end: int, t: Tag, cc: Seq<u8>)
    requires
        tag_wf(t),
        cc.len() < p256(8),
        has_bytes(s, pos, enc_tlv(t, cc)),
        pos + enc_tlv(t, cc).len() <= end,
        end <= s.len(),
        t != crate::der::uni_prim(crate::der::TAG_INTEGER),
    ensures
        crate::ctl::sp_version(s, pos, end) == Ok::<(crate::ctl::CtlVersion, int), DerError>(
            (crate::ctl::CtlVersion::V1, pos),
        ),
{
    lemma_parse_tlv_of_enc(s, pos, end, t, cc);
}

/// The subject-usage field parses as its header and the identifier list
/// filling the header's window.
#[verifier::rlimit(60)]
proof fn lemma_usage_step(s: Seq<u8>, pos: int, end: int, usage: Seq<Seq<u8>>)
    requires
        forall|i: int| 0 <= i < usage.len() ==> wf_oid_c(#[trigger] usage[i]),
        crate::encode::enc_oid_list(usage).len() < p256(8),
        has_bytes(
            s,
            pos,
            enc_tlv(crate::der::uni_cons(crate::der::TAG_SEQUENCE), crate::encode::enc_oid_list(usage)),
        ),
        pos + enc_tlv(
            crate::der::uni_cons(crate::der::TAG_SEQUENCE),
            crate::encode::enc_oid_list(usage),
        ).len() <= end,
        end <= s.len(),
    ensures
        ({
            let ulist = crate::encode::enc_oid_list(usage);
            let hl = (enc_tag(crate::der::uni_cons(crate::der::TAG_SEQUENCE)) + enc_len(
                ulist.len(),
            )).len();
            let q1 = pos + enc_tlv(crate::der::uni_cons(crate::der::TAG_SEQUENCE), ulist).len();
            &&& q1 == pos + hl + ulist.len()
            &&& sp_header(s, pos, end) == Ok::<(Tag, int, int), DerError>(
                (crate::der::uni_cons(crate::der::TAG_SEQUENCE), pos + hl, q1),
            )
            &&& crate::ctl::sp_oid_list(s, pos + hl, q1) == Ok::<Seq<Seq<u8>>, DerError>(usage)
        }),
{
    let ulist = crate::encode::enc_oid_list(usage);
    lemma_parse_tlv_of_enc(s, pos, end, crate::der::uni_cons(crate::der::TAG_SEQUENCE), ulist);
    let hl = (enc_tag(crate::der::uni_cons(crate::der::TAG_SEQUENCE)) + enc_len(
        ulist.len(),
    )).len();
    lemma_parse_oid_list_of_enc(s, pos + hl, usage);
}

/// A present optional OCTET STRING parses as present.
#[verifier::rlimit(60)]
proof fn lemma_opt_octets_some(s: Seq<u8>, pos: int, end: int, li: Seq<u8>)
    requires
        li.len() < p256(8),
        has_bytes(s, pos, crate::encode::enc_octets(li)),
        pos + crate::encode::enc_octets(li).len() <= end,
        end <= s.len(),
    ensures
        crate::ctl::sp_opt_octets(s, pos, end) == Ok::<(Option<Seq<u8>>, int), DerError>(
            (Some(li), pos + crate::encode::enc_octets(li).len()),
        ),
{
    lemma_parse_tlv_of_enc(s, pos, end, crate::der::uni_prim(crate::der::TAG_OCTET_STRING), li);
    lemma_parse_octets_of_enc(s, pos, end, li);
}

/// An optional OCTET STRING is absent whenever the next tag differs.
#[verifier::rlimit(60)]
proof fn lemma_opt_octets_none(s: Seq<u8>, pos: int, end: int, t: Tag, cc: Seq<u8>)
    requires
        tag_wf(t),
        cc.len() < p256(8),
        has_bytes(s, pos, enc_tlv(t, cc)),
        pos + enc_tlv(t, cc).len() <= end,
        end <= s.len(),
        t != crate::der::uni_prim(crate::der::TAG_OCTET_STRING),
    ensures
        crate::ctl::sp_opt_octets(s, pos, end) == Ok::<(Option<Seq<u8>>, int), DerError>(
            (None, pos),
        ),
{
    lemma_parse_tlv_of_enc(s, pos, end, t, cc);
}

/// A present optional INTEGER parses as present.
#[verifier::rlimit(60)]
proof fn lemma_opt_integer_some(s: Seq<u8>, pos: int, end: int, sn: Seq<u8>)
    requires
        int_content_ok(sn),
        sn.len() < p256(8),
        has_bytes(s, pos, crate::encode::enc_integer(sn)),
        pos + crate::encode::enc_integer(sn).len() <= end,
        end <= s.len(),
    ensures
        crate::ctl::sp_opt_integer(s, pos, end) == Ok::<(Option<Seq<u8>>, int), DerError>(
            (Some(sn), pos + crate::encode::enc_integer(sn).len()),
        ),
{
    lemma_parse_tlv_of_enc(s, pos, end, crate::der::uni_prim(crate::der::TAG_INTEGER), sn);
    lemma_parse_integer_of_enc(s, pos, end, sn);
}

/// An optional INTEGER is absent whenever the next tag differs.
#[verifier::rlimit(60)]
proof fn lemma_opt_integer_none(s: Seq<u8>, pos: int, end: int, t: Tag, cc: Seq<u8>)
    requires
        tag_wf(t),
        cc.len() < p256(8),
        has_bytes(s, pos, enc_tlv(t, cc)),
        pos + enc_tlv(t, cc).len() <= end,
        end <= s.len(),
        t != crate::der::uni_prim(crate::der::TAG_INTEGER),
    ensures
        crate::ctl::sp_opt_integer(s, pos, end) == Ok::<(Option<Seq<u8>>, int), DerError>(
            (None, pos),
        ),
{
    lemma_parse_tlv_of_enc(s, pos, end, t, cc);
}

/// A present optional time parses as present.
#[verifier::rlimit(60)]
proof fn lemma_opt_time_some(s: Seq<u8>, pos: int, end: int, tv: TimeView)
    requires
        time_content_ok(tv.kind, tv.value),
        has_bytes(s, pos, crate::encode::enc_time(tv)),
        pos + crate::encode::enc_time(tv).len() <= end,
        end <= s.len(),
    ensures
        crate::ctl::sp_opt_time(s, pos, end) == Ok::<(Option<TimeView>, int), DerError>(
            (Some(tv), pos + crate::encode::enc_time(tv).len()),
        ),
{
    crate::der::lemma_p256_8();
    let tnum = if tv.kind is Utc {
        crate::der::TAG_UTC_TIME
    } else {
        crate::der::TAG_GENERALIZED_TIME
    };
    lemma_parse_tlv_of_enc(s, pos, end, crate::der::uni_prim(tnum), tv.value);
    lemma_parse_time_of_enc(s, pos, end, tv);
}

/// An optional time is absent whenever the next tag is no time tag.
#[verifier::rlimit(60)]
proof fn lemma_opt_time_none(s: Seq<u8>, pos: int, end: int, t: Tag, cc: Seq<u8>)
    requires
        tag_wf(t),
        cc.len() < p256(8),
        has_bytes(s, pos, enc_tlv(t, cc)),
        pos + enc_tlv(t, cc).len() <= end,
        end <= s.len(),
        t != crate::der::uni_prim(crate::der::TAG_UTC_TIME),
        t != crate::der::uni_prim(crate::der::TAG_GENERALIZED_TIME),
    ensures
        crate::ctl::sp_opt_time(s, pos, end) == Ok::<(Option<TimeView>, int), DerError>(
            (None, pos),
        ),
{
    lemma_parse_tlv_of_enc(s, pos, end, t, cc);
}

/// A present optional subject list parses as present.
#[verifier::rlimit(60)]
proof fn lemma_opt_subjects_some(s: Seq<u8>, pos: int, end: int, subs: Seq<TrustedSubjectView>)
    requires
        wf_subject_seq(subs),
        has_bytes(
            s,
            pos,
            enc_tlv(
                crate::der::uni_cons(crate::der::TAG_SEQUENCE),
                crate::encode::enc_subject_list(subs),
            ),
        ),
        pos + enc_tlv(
            crate::der::uni_cons(crate::der::TAG_SEQUENCE),
            crate::encode::enc_subject_list(subs),
        ).len() <= end,
        end <= s.len(),
    ensures
        crate::ctl::sp_opt_subjects(s, pos, end) == Ok::<
            (Option<Seq<TrustedSubjectView>>, int),
            DerError,
        >(
            (
                Some(subs),
                pos + enc_tlv(
                    crate::der::uni_cons(crate::der::TAG_SEQUENCE),
                    crate::encode::enc_subject_list(subs),
                ).len(),
            ),
        ),
{
    lemma_p256_mono(7, 8);
    let slist = crate::encode::enc_subject_list(subs);
    lemma_parse_tlv_of_enc(s, pos, end, crate::der::uni_cons(crate::der::TAG_SEQUENCE), slist);
    let hl = (enc_tag(crate::der::uni_cons(crate::der::TAG_SEQUENCE)) + enc_len(
        slist.len(),
    )).len();
    lemma_parse_subject_list_of_enc(s, pos + hl, subs);
}

/// The optional subject list is absent whenever the next tag is not a
/// constructed SEQUENCE.
#[verifier::rlimit(60)]
proof fn lemma_opt_subjects_none(s: Seq<u8>, pos: int, end: int, t: Tag, cc: Seq<u8>)
    requires
        tag_wf(t),
        cc.len() < p256(8),
        has_bytes(s, pos, enc_tlv(t, cc)),
        pos + enc_tlv(t, cc).len() <= end,
        end <= s.len(),
        t != crate::der::uni_cons(crate::der::TAG_SEQUENCE),
    ensures
        crate::ctl::sp_opt_subjects(s, pos, end) == Ok::<
            (Option<Seq<TrustedSubjectView>>, int),
            DerError,
        >((None, pos)),
{
    lemma_parse_tlv_of_enc(s, pos, end, t, cc);
    assert(pos < end);
}

/// A present optional extensions field parses as present.
#[verifier::rlimit(60)]
proof fn lemma_opt_exts_some(s: Seq<u8>, pos: int, end: int, ext: RawValueView)
    requires
        wf_raw(ext),
        has_bytes(s, pos, enc_tlv(crate::der::ctx_cons(0), crate::encode::enc_raw(ext))),
        pos + enc_tlv(crate::der::ctx_cons(0), crate::encode::enc_raw(ext)).len() <= end,
        end <= s.len(),
    ensures
        crate::ctl::sp_opt_extensions(s, pos, end) == Ok::<(Option<RawValueView>, int), DerError>(
            (Some(ext), pos + enc_tlv(crate::der::ctx_cons(0), crate::encode::enc_raw(ext)).len()),
        ),
{
    lemma_enc_raw_len_bound(ext);
    lemma_p256_mono(7, 8);
    lemma_parse_tlv_of_enc(s, pos, end, crate::der::ctx_cons(0), crate::encode::enc_raw(ext));
    let hl = (enc_tag(crate::der::ctx_cons(0)) + enc_len(crate::encode::enc_raw(ext).len())).len();
    let ecs = pos + hl;
    let ece = ecs + crate::encode::enc_raw(ext).len();
    lemma_parse_raw_of_enc(s, ecs, ece, ext);
}

/// Evaluation of the field chain from the results of each step.
#[verifier::rlimit(60)]
proof fn lemma_ctl_fields_eval(
    s: Seq<u8>,
    pos: int,
    end: int,
    c: CertificateTrustListView,
    ucs: int,
    q1: int,
    q2: int,
    q3: int,
    q4: int,
    q5: int,
    q6: int,
    q7: int,
)
    requires
        crate::ctl::sp_version(s, pos, end) == Ok::<(crate::ctl::CtlVersion, int), DerError>(
            (crate::ctl::CtlVersion::V1, pos),
        ),
        sp_header(s, pos, end) == Ok::<(Tag, int, int), DerError>(
            (crate::der::uni_cons(crate::der::TAG_SEQUENCE), ucs, q1),
        ),
        crate::ctl::sp_oid_list(s, ucs, q1) == Ok::<Seq<Seq<u8>>, DerError>(c.subject_usage),
        crate::ctl::sp_opt_octets(s, q1, end) == Ok::<(Option<Seq<u8>>, int), DerError>(
            (c.list_identifier, q2),
        ),
        crate::ctl::sp_opt_integer(s, q2, end) == Ok::<(Option<Seq<u8>>, int), DerError>(
            (c.sequence_number, q3),
        ),
        crate::ctl::sp_time(s, q3, end) == Ok::<(TimeView, int), DerError>((c.this_update, q4)),
        crate::ctl::sp_opt_time(s, q4, end) == Ok::<(Option<TimeView>, int), DerError>(
            (c.next_update, q5),
        ),
        crate::ctl::sp_algid(s, q5, end) == Ok::<(AlgorithmIdentifierView, int), DerError>(
            (c.subject_algorithm, q6),
        ),
        crate::ctl::sp_opt_subjects(s, q6, end) == Ok::<
            (Option<Seq<TrustedSubjectView>>, int),
            DerError,
        >((c.trusted_subjects, q7)),
        crate::ctl::sp_opt_extensions(s, q7, end) == Ok::<(Option<RawValueView>, int), DerError>(
            (c.ctl_extensions, end),
        ),
        c.version == crate::ctl::CtlVersion::V1,
    ensures
        crate::ctl::sp_ctl_fields(s, pos, end) == Ok::<CertificateTrustListView, DerError>(c),
{
    assert(c == CertificateTrustListView {
        version: crate::ctl::CtlVersion::V1,
        subject_usage: c.subject_usage,
        list_identifier: c.list_identifier,
        sequence_number: c.sequence_number,
        this_update: c.this_update,
        next_update: c.next_update,
        subject_algorithm: c.subject_algorithm,
        trusted_subjects: c.trusted_subjects,
        ctl_extensions: c.ctl_extensions,
    });
}

/// The encoding of the subject-usage field.
pub open spec fn ctl_f1(c: CertificateTrustListView) -> Seq<u8> {
    enc_tlv(crate::der::uni_cons(crate::der::TAG_SEQUENCE), crate::encode::enc_oid_list(c.subject_usage))
}

/// The encoding of the optional list identifier.
pub open spec fn ctl_f2(c: CertificateTrustListView) -> Seq<u8> {
    match c.list_identifier {
        Some(li) => crate::encode::enc_octets(li),
        None => Seq::<u8>::empty(),
    }
}

/// The encoding of the optional sequence number.
pub open spec fn ctl_f3(c: CertificateTrustListView) -> Seq<u8> {
    match c.sequence_number {
        Some(sn) => crate::encode::enc_integer(sn),
        None => Seq::<u8>::empty(),
    }
}

/// The encoding of the this-update time.
pub open spec fn ctl_f4(c: CertificateTrustListView) -> Seq<u8> {
    crate::encode::enc_time(c.this_update)
}

/// The encoding of the optional next-update time.
pub open spec fn ctl_f5(c: CertificateTrustListView) -> Seq<u8> {
    match c.next_update {
        Some(nu) => crate::encode::enc_time(nu),
        None => Seq::<u8>::empty(),
    }
}

/// The encoding of the subject algorithm.
pub open spec fn ctl_f6(c: CertificateTrustListView) -> Seq<u8> {
    crate::encode::enc_algid(c.subject_algorithm)
}

/// The encoding of the optional trusted-subject list.
pub open spec fn ctl_f7(c: CertificateTrustListView) -> Seq<u8> {
    match c.trusted_subjects {
        Some(subs) => enc_tlv(
            crate::der::uni_cons(crate::der::TAG_SEQUENCE),
            crate::encode::enc_subject_list(subs),
        ),
        None => Seq::<u8>::empty(),
    }
}

/// The encoding of the optional extensions field.
pub open spec fn ctl_f8(c: CertificateTrustListView) -> Seq<u8> {
    match c.ctl_extensions {
        Some(ext) => enc_tlv(crate::der::ctx_cons(0), crate::encode::enc_raw(ext)),
        None => Seq::<u8>::empty(),
    }
}

/// The position after field k, starting from `pos`.
pub open spec fn ctl_q(c: CertificateTrustListView, pos: int, k: int) -> int {
    if k <= 0 {
        pos
    } else if k == 1 {
        pos + ctl_f1(c).len()
    } else if k == 2 {
        pos + ctl_f1(c).len() + ctl_f2(c).len()
    } else if k == 3 {
        pos + ctl_f1(c).len() + ctl_f2(c).len() + ctl_f3(c).len()
    } else if k == 4 {
        pos + ctl_f1(c).len() + ctl_f2(c).len() + ctl_f3(c).len() + ctl_f4(c).len()
    } else if k == 5 {
        pos + ctl_f1(c).len() + ctl_f2(c).len() + ctl_f3(c).len() + ctl_f4(c).len()
            + ctl_f5(c).len()
    } else if k == 6 {
        pos + ctl_f1(c).len() + ctl_f2(c).len() + ctl_f3(c).len() + ctl_f4(c).len()
            + ctl_f5(c).len() + ctl_f6(c).len()
    } else if k == 7 {
        pos + ctl_f1(c).len() + ctl_f2(c).len() + ctl_f3(c).len() + ctl_f4(c).len()
            + ctl_f5(c).len() + ctl_f6(c).len() + ctl_f7(c).len()
    } else {
        pos + ctl_f1(c).len() + ctl_f2(c).len() + ctl_f3(c).len() + ctl_f4(c).len()
            + ctl_f5(c).len() + ctl_f6(c).len() + ctl_f7(c).len() + ctl_f8(c).len()
    }
}

/// The head length of the subject-usage field's TLV.
pub open spec fn ctl_ucs(c: CertificateTrustListView, pos: int) -> int {
    pos + (enc_tag(crate::der::uni_cons(crate::der::TAG_SEQUENCE)) + enc_len(
        crate::encode::enc_oid_list(c.subject_usage).len(),
    )).len()
}

/// The field encoding is the concatenation of the eight fields, and each
/// field stands at its offset.
#[verifier::rlimit(100)]
proof fn lemma_ctl_fields_decomp(s: Seq<u8>, pos: int, c: CertificateTrustListView)
    requires
        has_bytes(s, pos, crate::encode::enc_ctl_fields(c)),
    ensures
        crate::encode::enc_ctl_fields(c).len() == ctl_q(c, pos, 8) - pos,
        has_bytes(s, pos, ctl_f1(c)),
        has_bytes(s, ctl_q(c, pos, 1), ctl_f2(c)),
        has_bytes(s, ctl_q(c, pos, 2), ctl_f3(c)),
        has_bytes(s, ctl_q(c, pos, 3), ctl_f4(c)),
        has_bytes(s, ctl_q(c, pos, 4), ctl_f5(c)),
        has_bytes(s, ctl_q(c, pos, 5), ctl_f6(c)),
        has_bytes(s, ctl_q(c, pos, 6), ctl_f7(c)),
        has_bytes(s, ctl_q(c, pos, 7), ctl_f8(c)),
{
    let e1 = ctl_f1(c);
    let e2 = e1 + ctl_f2(c);
    let e3 = e2 + ctl_f3(c);
    let e4 = e3 + ctl_f4(c);
    let e5 = e4 + ctl_f5(c);
    let e6 = e5 + ctl_f6(c);
    let e7 = e6 + ctl_f7(c);
    assert(crate::encode::enc_ctl_fields(c) == e7 + ctl_f8(c));
    lemma_has_bytes_split(s, pos, e7, ctl_f8(c));
    lemma_has_bytes_split(s, pos, e6, ctl_f7(c));
    lemma_has_bytes_split(s, pos, e5, ctl_f6(c));
    lemma_has_bytes_split(s, pos, e4, ctl_f5(c));
    lemma_has_bytes_split(s, pos, e3, ctl_f4(c));
    lemma_has_bytes_split(s, pos, e2, ctl_f3(c));
    lemma_has_bytes_split(s, pos, e1, ctl_f2(c));
}

/// The first half of the field chain: version through this-update.
#[verifier::rlimit(100)]
proof fn lemma_ctl_fields_head(s: Seq<u8>, pos: int, c: CertificateTrustListView)
    requires
        wf_ctl(c),
        has_bytes(s, pos, crate::encode::enc_ctl_fields(c)),
        pos + crate::encode::enc_ctl_fields(c).len() <= s.len(),
    ensures
        ({
            let end = pos + crate::encode::enc_ctl_fields(c).len();
            &&& crate::ctl::sp_version(s, pos, end) == Ok::<
                (crate::ctl::CtlVersion, int),
                DerError,
            >((crate::ctl::CtlVersion::V1, pos))
            &&& sp_header(s, pos, end) == Ok::<(Tag, int, int), DerError>(
                (crate::der::uni_cons(crate::der::TAG_SEQUENCE), ctl_ucs(c, pos), ctl_q(c, pos, 1)),
            )
            &&& crate::ctl::sp_oid_list(s, ctl_ucs(c, pos), ctl_q(c, pos, 1)) == Ok::<
                Seq<Seq<u8>>,
                DerError,
            >(c.subject_usage)
            &&& crate::ctl::sp_opt_octets(s, ctl_q(c, pos, 1), end) == Ok::<
                (Option<Seq<u8>>, int),
                DerError,
            >((c.list_identifier, ctl_q(c, pos, 2)))
            &&& crate::ctl::sp_opt_integer(s, ctl_q(c, pos, 2), end) == Ok::<
                (Option<Seq<u8>>, int),
                DerError,
            >((c.sequence_number, ctl_q(c, pos, 3)))
            &&& crate::ctl::sp_time(s, ctl_q(c, pos, 3), end) == Ok::<(TimeView, int), DerError>(
                (c.this_update, ctl_q(c, pos, 4)),
            )
        }),
{
    lemma_p256_mono(7, 8);
    crate::der::lemma_p256_8();
    lemma_ctl_fields_decomp(s, pos, c);
    let end = pos + crate::encode::enc_ctl_fields(c).len();
    let q1 = ctl_q(c, pos, 1);
    let q2 = ctl_q(c, pos, 2);
    let q3 = ctl_q(c, pos, 3);
    lemma_usage_step(s, pos, end, c.subject_usage);
    lemma_version_default(
        s,
        pos,
        end,
        crate::der::uni_cons(crate::der::TAG_SEQUENCE),
        crate::encode::enc_oid_list(c.subject_usage),
    );
    let tnum_this = if c.this_update.kind is Utc {
        crate::der::TAG_UTC_TIME
    } else {
        crate::der::TAG_GENERALIZED_TIME
    };
    match c.list_identifier {
        Some(li) => {
            lemma_opt_octets_some(s, q1, end, li);
        },
        None => {
            match c.sequence_number {
                Some(sn) => {
                    lemma_opt_octets_none(
                        s,
                        q1,
                        end,
                        crate::der::uni_prim(crate::der::TAG_INTEGER),
                        sn,
                    );
                },
                None => {
                    lemma_opt_octets_none(
                        s,
                        q1,
                        end,
                        crate::der::uni_prim(tnum_this),
                        c.this_update.value,
                    );
                },
            }
        },
    }
    match c.sequence_number {
        Some(sn) => {
            lemma_opt_integer_some(s, q2, end, sn);
        },
        None => {
            lemma_opt_integer_none(
                s,
                q2,
                end,
                crate::der::uni_prim(tnum_this),
                c.this_update.value,
            );
        },
    }
    lemma_parse_time_of_enc(s, q3, end, c.this_update);
}

/// The second half of the field chain: next-update through extensions.
#[verifier::rlimit(100)]
proof fn lemma_ctl_fields_tail(s: Seq<u8>, pos: int, c: CertificateTrustListView)
    requires
        wf_ctl(c),
        has_bytes(s, pos, crate::encode::enc_ctl_fields(c)),
        pos + crate::encode::enc_ctl_fields(c).len() <= s.len(),
    ensures
        ({
            let end = pos + crate::encode::enc_ctl_fields(c).len();
            &&& crate::ctl::sp_opt_time(s, ctl_q(c, pos, 4), end) == Ok::<
                (Option<TimeView>, int),
                DerError,
            >((c.next_update, ctl_q(c, pos, 5)))
            &&& crate::ctl::sp_algid(s, ctl_q(c, pos, 5), end) == Ok::<
                (AlgorithmIdentifierView, int),
                DerError,
            >((c.subject_algorithm, ctl_q(c, pos, 6)))
            &&& crate::ctl::sp_opt_subjects(s, ctl_q(c, pos, 6), end) == Ok::<
                (Option<Seq<TrustedSubjectView>>, int),
                DerError,
            >((c.trusted_subjects, ctl_q(c, pos, 7)))
            &&& crate::ctl::sp_opt_extensions(s, ctl_q(c, pos, 7), end) == Ok::<
                (Option<RawValueView>, int),
                DerError,
            >((c.ctl_extensions, end))
        }),
{
    lemma_p256_mono(7, 8);
    crate::der::lemma_p256_8();
    lemma_ctl_fields_decomp(s, pos, c);
    let end = pos + crate::encode::enc_ctl_fields(c).len();
    let q4 = ctl_q(c, pos, 4);
    let q5 = ctl_q(c, pos, 5);
    let q6 = ctl_q(c, pos, 6);
    let q7 = ctl_q(c, pos, 7);
    match c.next_update {
        Some(nu) => {
            lemma_opt_time_some(s, q4, end, nu);
        },
        None => {
            lemma_opt_time_none(
                s,
                q4,
                end,
                crate::der::uni_cons(crate::der::TAG_SEQUENCE),
                crate::encode::enc_algid_content(c.subject_algorithm),
            );
        },
    }
    lemma_parse_algid_of_enc(s, q5, end, c.subject_algorithm);
    match c.trusted_subjects {
        Some(subs) => {
            lemma_opt_subjects_some(s, q6, end, subs);
        },
        None => {
            match c.ctl_extensions {
                Some(ext) => {
                    lemma_enc_raw_len_bound(ext);
                    lemma_opt_subjects_none(
                        s,
                        q6,
                        end,
                        crate::der::ctx_cons(0),
                        crate::encode::enc_raw(ext),
                    );
                },
                None => {
                    assert(q6 == end);
                    assert(crate::ctl::sp_opt_subjects(s, q6, end) == Ok::<
                        (Option<Seq<TrustedSubjectView>>, int),
                        DerError,
                    >((None, q6)));
                },
            }
        },
    }
    match c.ctl_extensions {
        Some(ext) => {
            lemma_opt_exts_some(s, q7, end, ext);
        },
        None => {
            assert(q7 == end);
            assert(crate::ctl::sp_opt_extensions(s, q7, end) == Ok::<
                (Option<RawValueView>, int),
                DerError,
            >((None, q7)));
        },
    }
}

/// Parsing the canonical field encoding of a legal trust list, in a
/// window it fills exactly, yields the value.
#[verifier::rlimit(100)]
pub proof fn lemma_parse_ctl_fields_of_enc(s: Seq<u8>, pos: int, c: CertificateTrustListView)
    requires
        wf_ctl(c),
        has_bytes(s, pos, crate::encode::enc_ctl_fields(c)),
        pos + crate::encode::enc_ctl_fields(c).len() <= s.len(),
    ensures
        crate::ctl::sp_ctl_fields(s, pos, pos + crate::encode::enc_ctl_fields(c).len()) == Ok::<
            CertificateTrustListView,
            DerError,
        >(c),
{
    let end = pos + crate::encode::enc_ctl_fields(c).len();
    lemma_ctl_fields_head(s, pos, c);
    lemma_ctl_fields_tail(s, pos, c);
    match c.version {
        crate::ctl::CtlVersion::V1 => {},
    }
    lemma_ctl_fields_eval(
        s,
        pos,
        end,
        c,
        ctl_ucs(c, pos),
        ctl_q(c, pos, 1),
        ctl_q(c, pos, 2),
        ctl_q(c, pos, 3),
        ctl_q(c, pos, 4),
        ctl_q(c, pos, 5),
        ctl_q(c, pos, 6),
        ctl_q(c, pos, 7),
    );
}

/// The round-trip law: the canonical encoding of any legally constructed
/// `CertificateTrustList` value parses back to an equal value, with
/// DEFAULT fields re-encoded as absent and absent OPTIONAL fields never
/// appearing.
#[verifier::rlimit(60)]
pub proof fn lemma_ctl_round_trip(c: CertificateTrustListView)
    requires
        wf_ctl(c),
    ensures
        crate::ctl::sp_ctl(crate::encode::enc_ctl(c)) == Ok::<CertificateTrustListView, DerError>(
            c,
        ),
{
    lemma_p256_mono(7, 8);
    let s = crate::encode::enc_ctl(c);
    let fields = crate::encode::enc_ctl_fields(c);
    assert(s == enc_tlv(crate::der::uni_cons(crate::der::TAG_SEQUENCE), fields));
    assert(has_bytes(s, 0, s)) by {
        assert(s.subrange(0, s.len() as int) =~= s);
    }
    lemma_parse_tlv_of_enc(
        s,
        0,
        s.len() as int,
        crate::der::uni_cons(crate::der::TAG_SEQUENCE),
        fields,
    );
    let hl = (enc_tag(crate::der::uni_cons(crate::der::TAG_SEQUENCE)) + enc_len(
        fields.len(),
    )).len();
    lemma_parse_ctl_fields_of_enc(s, hl as int, c);
}

} // verus!
