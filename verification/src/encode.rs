//! The canonical encoder: the single DER encoding of each value the
//! library models, as a specification-level function on sequences, and an
//! executable encoder proved to produce exactly those bytes.
//!
//! DEFAULT fields are omitted: the version, whose only value is the
//! default, is never written.  OPTIONAL fields absent from a value do not
//! appear.  Undecoded values re-encode verbatim from their tag and content.

use vstd::prelude::*;
use crate::ctl::AlgorithmIdentifier;
use crate::ctl::AlgorithmIdentifierView;
use crate::ctl::Attribute;
use crate::ctl::AttributeView;
use crate::ctl::CertificateTrustList;
use crate::ctl::CertificateTrustListView;
use crate::ctl::Time;
use crate::ctl::TimeKind;
use crate::ctl::TimeView;
use crate::ctl::TrustedSubject;
use crate::ctl::TrustedSubjectView;
use crate::der::Identifier;
use crate::der::RawValue;
use crate::der::RawValueView;
use crate::der::Tag;
use crate::der::TAG_GENERALIZED_TIME;
use crate::der::TAG_INTEGER;
use crate::der::TAG_OCTET_STRING;
use crate::der::TAG_OID;
use crate::der::TAG_SEQUENCE;
use crate::der::TAG_SET;
use crate::der::TAG_UTC_TIME;
use crate::der::ctx_cons;
use crate::der::p256;
use crate::der::tag_wf;
use crate::der::uni_cons;
use crate::der::uni_prim;

verus! {

/// The base-128 digits of `m` that precede the final digit of a tag
/// number, each with the continuation bit set.
pub open spec fn enc_b128_pre(m: nat) -> Seq<u8>
    decreases m,
{
    if m == 0 {
        Seq::empty()
    } else {
        enc_b128_pre(m / 128) + seq![((m % 128 + 0x80) as u8)]
    }
}

/// The minimal base-128 encoding of a tag number: continuation digits,
/// then the final digit without the continuation bit.
pub open spec fn enc_b128(n: nat) -> Seq<u8> {
    enc_b128_pre(n / 128) + seq![((n % 128) as u8)]
}

/// The identifier octets of a tag: one octet carrying class, constructed
/// bit and tag numbers below 31; larger numbers continue in base 128.
pub open spec fn enc_tag(t: Tag) -> Seq<u8> {
    let cons_bit: u8 = if t.constructed {
        0x20
    } else {
        0
    };
    if t.number < 31 {
        seq![((t.class * 0x40 + cons_bit + t.number) as u8)]
    } else {
        seq![((t.class * 0x40 + cons_bit + 31) as u8)] + enc_b128(t.number as nat)
    }
}

/// The minimal base-256 digits of a length, most significant first; empty
/// for zero.
pub open spec fn enc_len_digits(n: nat) -> Seq<u8>
    decreases n,
{
    if n == 0 {
        Seq::empty()
    } else {
        enc_len_digits(n / 256) + seq![((n % 256) as u8)]
    }
}

/// The minimal definite length octets: short form below 128, long form
/// with a digit count otherwise.
pub open spec fn enc_len(n: nat) -> Seq<u8> {
    if n < 128 {
        seq![(n as u8)]
    } else {
        seq![((0x80 + enc_len_digits(n).len()) as u8)] + enc_len_digits(n)
    }
}

/// One TLV: identifier octets, minimal length octets, content octets.
pub open spec fn enc_tlv(t: Tag, c: Seq<u8>) -> Seq<u8> {
    enc_tag(t) + enc_len(c.len()) + c
}

/// An OBJECT IDENTIFIER with the given content octets.
pub open spec fn enc_oid(c: Seq<u8>) -> Seq<u8> {
    enc_tlv(uni_prim(TAG_OID), c)
}

/// An OCTET STRING with the given content octets.
pub open spec fn enc_octets(c: Seq<u8>) -> Seq<u8> {
    enc_tlv(uni_prim(TAG_OCTET_STRING), c)
}

/// An INTEGER with the given content octets.
pub open spec fn enc_integer(c: Seq<u8>) -> Seq<u8> {
    enc_tlv(uni_prim(TAG_INTEGER), c)
}

/// A time value, in the encoding it was decoded from.
pub open spec fn enc_time(t: TimeView) -> Seq<u8> {
    let number = if t.kind is Utc {
        TAG_UTC_TIME
    } else {
        TAG_GENERALIZED_TIME
    };
    enc_tlv(uni_prim(number), t.value)
}

/// An undecoded value, verbatim from its tag and content.
pub open spec fn enc_raw(rv: RawValueView) -> Seq<u8> {
    enc_tlv(rv.tag, rv.content)
}

/// Consecutive OBJECT IDENTIFIERs.
pub open spec fn enc_oid_list(items: Seq<Seq<u8>>) -> Seq<u8>
    decreases items.len(),
{
    if items.len() == 0 {
        Seq::empty()
    } else {
        enc_oid(items[0]) + enc_oid_list(items.drop_first())
    }
}

/// Consecutive undecoded values.
pub open spec fn enc_raw_list(items: Seq<RawValueView>) -> Seq<u8>
    decreases items.len(),
{
    if items.len() == 0 {
        Seq::empty()
    } else {
        enc_raw(items[0]) + enc_raw_list(items.drop_first())
    }
}

/// The content of an algorithm identifier SEQUENCE.
pub open spec fn enc_algid_content(a: AlgorithmIdentifierView) -> Seq<u8> {
    enc_oid(a.oid) + (match a.params {
        Some(rv) => enc_raw(rv),
        None => Seq::empty(),
    })
}

/// An algorithm identifier.
pub open spec fn enc_algid(a: AlgorithmIdentifierView) -> Seq<u8> {
    enc_tlv(uni_cons(TAG_SEQUENCE), enc_algid_content(a))
}

/// The content of an attribute SEQUENCE: its type, then the SET of its
/// values.
pub open spec fn enc_attribute_content(a: AttributeView) -> Seq<u8> {
    enc_oid(a.oid) + enc_tlv(uni_cons(TAG_SET), enc_raw_list(a.values))
}

/// An attribute.
pub open spec fn enc_attribute(a: AttributeView) -> Seq<u8> {
    enc_tlv(uni_cons(TAG_SEQUENCE), enc_attribute_content(a))
}

/// Consecutive attributes.
pub open spec fn enc_attr_list(items: Seq<AttributeView>) -> Seq<u8>
    decreases items.len(),
{
    if items.len() == 0 {
        Seq::empty()
    } else {
        enc_attribute(items[0]) + enc_attr_list(items.drop_first())
    }
}

/// The content of a trusted-subject SEQUENCE: the identifier, then the
/// attribute SET if present.
pub open spec fn enc_subject_content(v: TrustedSubjectView) -> Seq<u8> {
    enc_octets(v.identifier) + (match v.attributes {
        Some(attrs) => enc_tlv(uni_cons(TAG_SET), enc_attr_list(attrs)),
        None => Seq::empty(),
    })
}

/// A trusted subject.
pub open spec fn enc_subject(v: TrustedSubjectView) -> Seq<u8> {
    enc_tlv(uni_cons(TAG_SEQUENCE), enc_subject_content(v))
}

/// Consecutive trusted subjects.
pub open spec fn enc_subject_list(items: Seq<TrustedSubjectView>) -> Seq<u8>
    decreases items.len(),
{
    if items.len() == 0 {
        Seq::empty()
    } else {
        enc_subject(items[0]) + enc_subject_list(items.drop_first())
    }
}

/// The content of a `CertificateTrustList` SEQUENCE.  The version, whose
/// only value is the default, is always omitted; absent OPTIONAL fields do
/// not appear.
pub open spec fn enc_ctl_fields(c: CertificateTrustListView) -> Seq<u8> {
    enc_tlv(uni_cons(TAG_SEQUENCE), enc_oid_list(c.subject_usage)) + (match c.list_identifier {
        Some(li) => enc_octets(li),
        None => Seq::empty(),
    }) + (match c.sequence_number {
        Some(sn) => enc_integer(sn),
        None => Seq::empty(),
    }) + enc_time(c.this_update) + (match c.next_update {
        Some(nu) => enc_time(nu),
        None => Seq::empty(),
    }) + enc_algid(c.subject_algorithm) + (match c.trusted_subjects {
        Some(subs) => enc_tlv(uni_cons(TAG_SEQUENCE), enc_subject_list(subs)),
        None => Seq::empty(),
    }) + (match c.ctl_extensions {
        Some(ext) => enc_tlv(ctx_cons(0), enc_raw(ext)),
        None => Seq::empty(),
    })
}

/// A complete `CertificateTrustList` document.
pub open spec fn enc_ctl(c: CertificateTrustListView) -> Seq<u8> {
    enc_tlv(uni_cons(TAG_SEQUENCE), enc_ctl_fields(c))
}

/// The tags inside an undecoded value can be re-encoded.
pub open spec fn enc_ok_raw(rv: RawValueView) -> bool {
    tag_wf(rv.tag)
}

/// The tags inside an attribute can be re-encoded.
pub open spec fn enc_ok_attr(a: AttributeView) -> bool {
    forall|i: int| 0 <= i < a.values.len() ==> enc_ok_raw(#[trigger] a.values[i])
}

/// The tags inside a trusted subject can be re-encoded.
pub open spec fn enc_ok_subject(v: TrustedSubjectView) -> bool {
    match v.attributes {
        Some(attrs) => forall|i: int| 0 <= i < attrs.len() ==> enc_ok_attr(#[trigger] attrs[i]),
        None => true,
    }
}

/// The tags inside a trust list can be re-encoded.
pub open spec fn enc_ok_ctl(c: CertificateTrustListView) -> bool {
    &&& match c.subject_algorithm.params {
        Some(rv) => enc_ok_raw(rv),
        None => true,
    }
    &&& match c.trusted_subjects {
        Some(subs) => forall|i: int|
            0 <= i < subs.len() ==> enc_ok_subject(#[trigger] subs[i]),
        None => true,
    }
    &&& match c.ctl_extensions {
        Some(ext) => enc_ok_raw(ext),
        None => true,
    }
}

/// Every base-256 digit string of a value below `p256(k)` has at most `k`
/// digits.
pub proof fn lemma_enc_len_digits_le(n: nat, k: nat)
    requires
        n < p256(k),
    ensures
        enc_len_digits(n).len() <= k,
    decreases k,
{
    if n > 0 {
        lemma_enc_len_digits_le(n / 256, (k - 1) as nat);
    }
}

/// Appends the leading base-128 digits of a tag number.
fn push_b128_pre(out: &mut Vec<u8>, m: u64)
    ensures
        final(out)@ == old(out)@ + enc_b128_pre(m as nat),
    decreases m,
{
    if m == 0 {
        proof {
            assert(old(out)@ + enc_b128_pre(0) =~= old(out)@);
        }
        return ;
    }
    push_b128_pre(out, m / 128);
    out.push((m % 128 + 0x80) as u8);
    proof {
        assert(old(out)@ + enc_b128_pre(m as nat) =~= (old(out)@ + enc_b128_pre((m / 128) as nat))
            + seq![((m as nat % 128 + 0x80) as u8)]);
    }
}

/// Appends the base-128 encoding of a tag number.
fn push_b128(out: &mut Vec<u8>, n: u64)
    ensures
        final(out)@ == old(out)@ + enc_b128(n as nat),
{
    push_b128_pre(out, n / 128);
    out.push((n % 128) as u8);
    proof {
        assert(old(out)@ + enc_b128(n as nat) =~= (old(out)@ + enc_b128_pre((n / 128) as nat))
            + seq![((n as nat % 128) as u8)]);
    }
}

/// Appends the identifier octets of a tag.
fn push_tag(out: &mut Vec<u8>, t: Tag)
    requires
        tag_wf(t),
    ensures
        final(out)@ == old(out)@ + enc_tag(t),
{
    let cons_bit: u8 = if t.constructed {
        0x20
    } else {
        0
    };
    if t.number < 31 {
        out.push(t.class * 0x40 + cons_bit + (t.number as u8));
        proof {
            assert(old(out)@ + enc_tag(t) =~= final(out)@);
        }
    } else {
        out.push(t.class * 0x40 + cons_bit + 31);
        let ghost mid = out@;
        push_b128(out, t.number);
        proof {
            assert(old(out)@ + enc_tag(t) =~= mid + enc_b128(t.number as nat));
        }
    }
}

/// Appends the minimal base-256 digits of a length.
fn push_len_digits(out: &mut Vec<u8>, n: usize)
    ensures
        final(out)@ == old(out)@ + enc_len_digits(n as nat),
    decreases n,
{
    if n == 0 {
        proof {
            assert(old(out)@ + enc_len_digits(0) =~= old(out)@);
        }
        return ;
    }
    push_len_digits(out, n / 256);
    out.push((n % 256) as u8);
    proof {
        assert(old(out)@ + enc_len_digits(n as nat) =~= (old(out)@ + enc_len_digits(
            (n / 256) as nat,
        )) + seq![((n as nat % 256) as u8)]);
    }
}

/// Appends the minimal definite length octets of a length.
fn push_len(out: &mut Vec<u8>, n: usize)
    ensures
        final(out)@ == old(out)@ + enc_len(n as nat),
{
    if n < 128 {
        out.push(n as u8);
        proof {
            assert(old(out)@ + enc_len(n as nat) =~= final(out)@);
        }
    } else {
        let mut digits: Vec<u8> = Vec::new();
        push_len_digits(&mut digits, n);
        proof {
            assert(Seq::<u8>::empty() + enc_len_digits(n as nat) =~= enc_len_digits(n as nat));
            crate::der::lemma_p256_8();
            lemma_enc_len_digits_le(n as nat, 8);
        }
        out.push(0x80 + (digits.len() as u8));
        let ghost mid = out@;
        let mut i: usize = 0;
        while i < digits.len()
            invariant
                i <= digits@.len(),
                digits@ == enc_len_digits(n as nat),
                out@ == mid + digits@.subrange(0, i as int),
            decreases digits@.len() - i,
        {
            out.push(digits[i]);
            i = i + 1;
            proof {
                assert(mid + digits@.subrange(0, i as int) =~= out@);
            }
        }
        proof {
            assert(digits@.subrange(0, digits@.len() as int) =~= digits@);
            assert(old(out)@ + enc_len(n as nat) =~= mid + digits@);
        }
    }
}

/// Appends one TLV: the tag, the minimal length of the content, and the
/// content bytes.
fn push_tlv(out: &mut Vec<u8>, t: Tag, content: &Vec<u8>)
    requires
        tag_wf(t),
    ensures
        final(out)@ == old(out)@ + enc_tlv(t, content@),
{
    push_tag(out, t);
    let ghost after_tag = out@;
    push_len(out, content.len());
    let ghost after_len = out@;
    let mut i: usize = 0;
    while i < content.len()
        invariant
            i <= content@.len(),
            out@ == after_len + content@.subrange(0, i as int),
        decreases content@.len() - i,
    {
        out.push(content[i]);
        i = i + 1;
        proof {
            assert(after_len + content@.subrange(0, i as int) =~= out@);
        }
    }
    proof {
        assert(content@.subrange(0, content@.len() as int) =~= content@);
        assert(old(out)@ + enc_tlv(t, content@) =~= after_len + content@);
    }
}

/// The encoding of the components after the first two: each in minimal
/// base 128, in order.
pub open spec fn enc_arcs_rest(arcs: Seq<u64>, i: int) -> Seq<u8>
    decreases arcs.len() - i,
{
    if i < 0 || i >= arcs.len() {
        Seq::empty()
    } else {
        enc_b128(arcs[i] as nat) + enc_arcs_rest(arcs, i + 1)
    }
}

/// The content octets of an identifier with the given dotted-notation
/// components: the first two pack into one value by `first * 40 + second`,
/// the rest follow in minimal base 128.
pub open spec fn enc_oid_components(arcs: Seq<u64>) -> Seq<u8> {
    enc_b128((arcs[0] * 40 + arcs[1]) as nat) + enc_arcs_rest(arcs, 2)
}

/// Components that form a legal identifier: at least two, a first
/// component of 0, 1 or 2, a second below 40 unless the first is 2, and a
/// packed first value that a word can hold.
pub open spec fn components_ok(arcs: Seq<u64>) -> bool {
    &&& arcs.len() >= 2
    &&& arcs[0] <= 2
    &&& (arcs[0] < 2 ==> arcs[1] < 40)
    &&& arcs[0] * 40 + arcs[1] < 0x10000000000000000
}

impl Identifier {
    /// Builds an identifier from its dotted-notation components, packing
    /// the first two by `first * 40 + second`; `None` when the components
    /// cannot form a legal identifier.
    pub fn from_components(arcs: &Vec<u64>) -> (r: Option<Identifier>)
        ensures
            components_ok(arcs@) ==> (match r {
                Some(id) => id@ == enc_oid_components(arcs@),
                None => false,
            }),
            !components_ok(arcs@) ==> r is None,
    {
        if arcs.len() < 2 {
            return None;
        }
        let a0 = arcs[0];
        let a1 = arcs[1];
        if a0 > 2 {
            return None;
        }
        if a0 < 2 && a1 >= 40 {
            return None;
        }
        if a0 == 2 && a1 > 0xFFFFFFFFFFFFFFFF - 80 {
            return None;
        }
        let mut bytes: Vec<u8> = Vec::new();
        push_b128(&mut bytes, a0 * 40 + a1);
        proof {
            assert(Seq::<u8>::empty() + enc_b128((a0 * 40 + a1) as nat) =~= enc_b128(
                (a0 * 40 + a1) as nat,
            ));
        }
        let mut i: usize = 2;
        while i < arcs.len()
            invariant
                2 <= i <= arcs@.len(),
                enc_oid_components(arcs@) == bytes@ + enc_arcs_rest(arcs@, i as int),
            decreases arcs@.len() - i,
        {
            let ghost old_bytes = bytes@;
            push_b128(&mut bytes, arcs[i]);
            i = i + 1;
            proof {
                assert(enc_arcs_rest(arcs@, i - 1) == enc_b128(arcs@[i - 1] as nat)
                    + enc_arcs_rest(arcs@, i as int));
                assert(old_bytes + (enc_b128(arcs@[i - 1] as nat) + enc_arcs_rest(arcs@, i as int))
                    =~= (old_bytes + enc_b128(arcs@[i - 1] as nat)) + enc_arcs_rest(
                    arcs@,
                    i as int,
                ));
            }
        }
        proof {
            assert(enc_arcs_rest(arcs@, i as int) =~= Seq::<u8>::empty());
            assert(bytes@ + Seq::<u8>::empty() =~= bytes@);
        }
        Some(Identifier { bytes })
    }
}

/// Appending an identifier to a list appends its encoding.
pub proof fn lemma_enc_oid_list_snoc(items: Seq<Seq<u8>>, x: Seq<u8>)
    ensures
        enc_oid_list(items.push(x)) == enc_oid_list(items) + enc_oid(x),
    decreases items.len(),
{
    let p = items.push(x);
    if items.len() == 0 {
        assert(p[0] == x);
        assert(p.drop_first() =~= Seq::<Seq<u8>>::empty());
        assert(enc_oid_list(p) == enc_oid(x) + enc_oid_list(Seq::<Seq<u8>>::empty()));
        assert(enc_oid(x) + Seq::<u8>::empty() =~= enc_oid(x));
        assert(Seq::<u8>::empty() + enc_oid(x) =~= enc_oid(x));
    } else {
        assert(p[0] == items[0]);
        assert(p.drop_first() =~= items.drop_first().push(x));
        lemma_enc_oid_list_snoc(items.drop_first(), x);
        assert(enc_oid_list(p) == enc_oid(items[0]) + enc_oid_list(p.drop_first()));
        assert(enc_oid_list(items) == enc_oid(items[0]) + enc_oid_list(items.drop_first()));
        assert(enc_oid(items[0]) + (enc_oid_list(items.drop_first()) + enc_oid(x)) =~= (enc_oid(
            items[0],
        ) + enc_oid_list(items.drop_first())) + enc_oid(x));
    }
}

/// Appending an undecoded value to a list appends its encoding.
pub proof fn lemma_enc_raw_list_snoc(items: Seq<RawValueView>, x: RawValueView)
    ensures
        enc_raw_list(items.push(x)) == enc_raw_list(items) + enc_raw(x),
    decreases items.len(),
{
    let p = items.push(x);
    if items.len() == 0 {
        assert(p[0] == x);
        assert(p.drop_first() =~= Seq::<RawValueView>::empty());
        assert(enc_raw_list(p) == enc_raw(x) + enc_raw_list(Seq::<RawValueView>::empty()));
        assert(enc_raw(x) + Seq::<u8>::empty() =~= enc_raw(x));
        assert(Seq::<u8>::empty() + enc_raw(x) =~= enc_raw(x));
    } else {
        assert(p[0] == items[0]);
        assert(p.drop_first() =~= items.drop_first().push(x));
        lemma_enc_raw_list_snoc(items.drop_first(), x);
        assert(enc_raw_list(p) == enc_raw(items[0]) + enc_raw_list(p.drop_first()));
        assert(enc_raw_list(items) == enc_raw(items[0]) + enc_raw_list(items.drop_first()));
        assert(enc_raw(items[0]) + (enc_raw_list(items.drop_first()) + enc_raw(x)) =~= (enc_raw(
            items[0],
        ) + enc_raw_list(items.drop_first())) + enc_raw(x));
    }
}

/// Appending an attribute to a list appends its encoding.
pub proof fn lemma_enc_attr_list_snoc(items: Seq<AttributeView>, x: AttributeView)
    ensures
        enc_attr_list(items.push(x)) == enc_attr_list(items) + enc_attribute(x),
    decreases items.len(),
{
    let p = items.push(x);
    if items.len() == 0 {
        assert(p[0] == x);
        assert(p.drop_first() =~= Seq::<AttributeView>::empty());
        assert(enc_attr_list(p) == enc_attribute(x) + enc_attr_list(Seq::<AttributeView>::empty()));
        assert(enc_attribute(x) + Seq::<u8>::empty() =~= enc_attribute(x));
        assert(Seq::<u8>::empty() + enc_attribute(x) =~= enc_attribute(x));
    } else {
        assert(p[0] == items[0]);
        assert(p.drop_first() =~= items.drop_first().push(x));
        lemma_enc_attr_list_snoc(items.drop_first(), x);
        assert(enc_attr_list(p) == enc_attribute(items[0]) + enc_attr_list(p.drop_first()));
        assert(enc_attr_list(items) == enc_attribute(items[0]) + enc_attr_list(items.drop_first()));
        assert(enc_attribute(items[0]) + (enc_attr_list(items.drop_first()) + enc_attribute(x))
            =~= (enc_attribute(items[0]) + enc_attr_list(items.drop_first())) + enc_attribute(x));
    }
}

/// Appending a trusted subject to a list appends its encoding.
pub proof fn lemma_enc_subject_list_snoc(items: Seq<TrustedSubjectView>, x: TrustedSubjectView)
    ensures
        enc_subject_list(items.push(x)) == enc_subject_list(items) + enc_subject(x),
    decreases items.len(),
{
    let p = items.push(x);
    if items.len() == 0 {
        assert(p[0] == x);
        assert(p.drop_first() =~= Seq::<TrustedSubjectView>::empty());
        assert(enc_subject_list(p) == enc_subject(x) + enc_subject_list(
            Seq::<TrustedSubjectView>::empty(),
        ));
        assert(enc_subject(x) + Seq::<u8>::empty() =~= enc_subject(x));
        assert(Seq::<u8>::empty() + enc_subject(x) =~= enc_subject(x));
    } else {
        assert(p[0] == items[0]);
        assert(p.drop_first() =~= items.drop_first().push(x));
        lemma_enc_subject_list_snoc(items.drop_first(), x);
        assert(enc_subject_list(p) == enc_subject(items[0]) + enc_subject_list(p.drop_first()));
        assert(enc_subject_list(items) == enc_subject(items[0]) + enc_subject_list(
            items.drop_first(),
        ));
        assert(enc_subject(items[0]) + (enc_subject_list(items.drop_first()) + enc_subject(x))
            =~= (enc_subject(items[0]) + enc_subject_list(items.drop_first())) + enc_subject(x));
    }
}

/// Appends an OBJECT IDENTIFIER.
fn encode_oid_to(out: &mut Vec<u8>, id: &Identifier)
    ensures
        final(out)@ == old(out)@ + enc_oid(id@),
{
    push_tlv(out, Tag { class: 0, constructed: false, number: TAG_OID }, &id.bytes);
}

/// Appends an OCTET STRING.
fn encode_octets_to(out: &mut Vec<u8>, v: &Vec<u8>)
    ensures
        final(out)@ == old(out)@ + enc_octets(v@),
{
    push_tlv(out, Tag { class: 0, constructed: false, number: TAG_OCTET_STRING }, v);
}

/// Appends an INTEGER.
fn encode_integer_to(out: &mut Vec<u8>, v: &Vec<u8>)
    ensures
        final(out)@ == old(out)@ + enc_integer(v@),
{
    push_tlv(out, Tag { class: 0, constructed: false, number: TAG_INTEGER }, v);
}

/// Appends a time value in the encoding it was decoded from.
fn encode_time_to(out: &mut Vec<u8>, t: &Time)
    ensures
        final(out)@ == old(out)@ + enc_time(t@),
{
    let number: u64 = match t.kind {
        TimeKind::Utc => TAG_UTC_TIME,
        TimeKind::Generalized => TAG_GENERALIZED_TIME,
    };
    push_tlv(out, Tag { class: 0, constructed: false, number }, &t.value);
}

/// Appends an undecoded value verbatim.
fn encode_raw_to(out: &mut Vec<u8>, rv: &RawValue)
    requires
        enc_ok_raw(rv@),
    ensures
        final(out)@ == old(out)@ + enc_raw(rv@),
{
    push_tlv(out, rv.tag, &rv.content);
}

/// Appends an algorithm identifier.
fn encode_algid_to(out: &mut Vec<u8>, a: &AlgorithmIdentifier)
    requires
        match a@.params {
            Some(rv) => enc_ok_raw(rv),
            None => true,
        },
    ensures
        final(out)@ == old(out)@ + enc_algid(a@),
{
    let mut c: Vec<u8> = Vec::new();
    encode_oid_to(&mut c, &a.oid);
    match &a.params {
        Some(rv) => {
            encode_raw_to(&mut c, rv);
        },
        None => {
            proof {
                assert(c@ + Seq::<u8>::empty() =~= c@);
            }
        },
    }
    proof {
        assert(c@ =~= enc_algid_content(a@));
    }
    push_tlv(out, Tag { class: 0, constructed: true, number: TAG_SEQUENCE }, &c);
}

/// Appends one attribute.
fn encode_attribute_to(out: &mut Vec<u8>, a: &Attribute)
    requires
        enc_ok_attr(a@),
    ensures
        final(out)@ == old(out)@ + enc_attribute(a@),
{
    let ghost vals_v = a@.values;
    let mut vb: Vec<u8> = Vec::new();
    let mut j: usize = 0;
    proof {
        assert(vals_v.take(0) =~= Seq::<RawValueView>::empty());
    }
    while j < a.values.len()
        invariant
            j <= a.values@.len(),
            vals_v == a@.values,
            vals_v.len() == a.values@.len(),
            enc_ok_attr(a@),
            vb@ == enc_raw_list(vals_v.take(j as int)),
        decreases a.values@.len() - j,
    {
        proof {
            assert(vals_v[j as int] == a.values@[j as int]@);
        }
        encode_raw_to(&mut vb, &a.values[j]);
        j = j + 1;
        proof {
            assert(vals_v.take(j as int) =~= vals_v.take(j as int - 1).push(vals_v[j as int - 1]));
            lemma_enc_raw_list_snoc(vals_v.take(j as int - 1), vals_v[j as int - 1]);
        }
    }
    proof {
        assert(vals_v.take(vals_v.len() as int) =~= vals_v);
    }
    let mut c: Vec<u8> = Vec::new();
    encode_oid_to(&mut c, &a.oid);
    push_tlv(&mut c, Tag { class: 0, constructed: true, number: TAG_SET }, &vb);
    proof {
        assert(c@ =~= enc_attribute_content(a@));
    }
    push_tlv(out, Tag { class: 0, constructed: true, number: TAG_SEQUENCE }, &c);
}

/// Appends one trusted subject.
fn encode_subject_to(out: &mut Vec<u8>, v: &TrustedSubject)
    requires
        enc_ok_subject(v@),
    ensures
        final(out)@ == old(out)@ + enc_subject(v@),
{
    let mut c: Vec<u8> = Vec::new();
    encode_octets_to(&mut c, &v.identifier);
    match &v.attributes {
        Some(attrs) => {
            let ghost attrs_v = attrs@.map_values(|x: Attribute| x@);
            let mut ab: Vec<u8> = Vec::new();
            let mut i: usize = 0;
            proof {
                assert(attrs_v.take(0) =~= Seq::<AttributeView>::empty());
            }
            while i < attrs.len()
                invariant
                    i <= attrs@.len(),
                    attrs_v == attrs@.map_values(|x: Attribute| x@),
                    attrs_v.len() == attrs@.len(),
                    v@.attributes == Some(attrs_v),
                    enc_ok_subject(v@),
                    ab@ == enc_attr_list(attrs_v.take(i as int)),
                decreases attrs@.len() - i,
            {
                proof {
                    assert(attrs_v[i as int] == attrs@[i as int]@);
                    let avs = v@.attributes->Some_0;
                    assert(avs == attrs_v);
                    assert(enc_ok_attr(avs[i as int]));
                }
                encode_attribute_to(&mut ab, &attrs[i]);
                i = i + 1;
                proof {
                    assert(attrs_v.take(i as int) =~= attrs_v.take(i as int - 1).push(
                        attrs_v[i as int - 1],
                    ));
                    lemma_enc_attr_list_snoc(attrs_v.take(i as int - 1), attrs_v[i as int - 1]);
                }
            }
            proof {
                assert(attrs_v.take(attrs_v.len() as int) =~= attrs_v);
            }
            push_tlv(&mut c, Tag { class: 0, constructed: true, number: TAG_SET }, &ab);
        },
        None => {
            proof {
                assert(c@ + Seq::<u8>::empty() =~= c@);
            }
        },
    }
    proof {
        assert(c@ =~= enc_subject_content(v@));
    }
    push_tlv(out, Tag { class: 0, constructed: true, number: TAG_SEQUENCE }, &c);
}

impl CertificateTrustList {
    /// Re-encodes this trust list as its canonical DER document: the
    /// version, whose only value is the default, is omitted, absent
    /// OPTIONAL fields do not appear, and undecoded values re-encode
    /// verbatim.
    pub fn to_der(&self) -> (out: Vec<u8>)
        requires
            enc_ok_ctl(self@),
        ensures
            out@ == enc_ctl(self@),
    {
        let mut body: Vec<u8> = Vec::new();
        // subjectUsage
        let ghost usage_v = self.subject_usage@.map_values(|x: Identifier| x@);
        let mut ub: Vec<u8> = Vec::new();
        let mut i: usize = 0;
        proof {
            assert(usage_v.take(0) =~= Seq::<Seq<u8>>::empty());
        }
        while i < self.subject_usage.len()
            invariant
                i <= self.subject_usage@.len(),
                usage_v == self.subject_usage@.map_values(|x: Identifier| x@),
                usage_v.len() == self.subject_usage@.len(),
                ub@ == enc_oid_list(usage_v.take(i as int)),
            decreases self.subject_usage@.len() - i,
        {
            proof {
                assert(usage_v[i as int] == self.subject_usage@[i as int]@);
            }
            encode_oid_to(&mut ub, &self.subject_usage[i]);
            i = i + 1;
            proof {
                assert(usage_v.take(i as int) =~= usage_v.take(i as int - 1).push(
                    usage_v[i as int - 1],
                ));
                lemma_enc_oid_list_snoc(usage_v.take(i as int - 1), usage_v[i as int - 1]);
            }
        }
        proof {
            assert(usage_v.take(usage_v.len() as int) =~= usage_v);
        }
        push_tlv(&mut body, Tag { class: 0, constructed: true, number: TAG_SEQUENCE }, &ub);
        let ghost g1 = body@;
        proof {
            assert(g1 =~= enc_tlv(uni_cons(TAG_SEQUENCE), enc_oid_list(self@.subject_usage)));
        }
        // listIdentifier
        match &self.list_identifier {
            Some(v) => encode_octets_to(&mut body, v),
            None => {
                proof {
                    assert(body@ + Seq::<u8>::empty() =~= body@);
                }
            },
        }
        let ghost g2 = body@;
        // sequenceNumber
        match &self.sequence_number {
            Some(v) => encode_integer_to(&mut body, v),
            None => {
                proof {
                    assert(body@ + Seq::<u8>::empty() =~= body@);
                }
            },
        }
        let ghost g3 = body@;
        // thisUpdate
        encode_time_to(&mut body, &self.this_update);
        let ghost g4 = body@;
        // nextUpdate
        match &self.next_update {
            Some(t) => encode_time_to(&mut body, t),
            None => {
                proof {
                    assert(body@ + Seq::<u8>::empty() =~= body@);
                }
            },
        }
        let ghost g5 = body@;
        // subjectAlgorithm
        encode_algid_to(&mut body, &self.subject_algorithm);
        let ghost g6 = body@;
        // trustedSubjects
        match &self.trusted_subjects {
            Some(subs) => {
                let ghost subs_v = subs@.map_values(|x: TrustedSubject| x@);
                let mut sb: Vec<u8> = Vec::new();
                let mut k: usize = 0;
                proof {
                    assert(subs_v.take(0) =~= Seq::<TrustedSubjectView>::empty());
                }
                while k < subs.len()
                    invariant
                        k <= subs@.len(),
                        subs_v == subs@.map_values(|x: TrustedSubject| x@),
                        subs_v.len() == subs@.len(),
                        self@.trusted_subjects == Some(subs_v),
                        enc_ok_ctl(self@),
                        sb@ == enc_subject_list(subs_v.take(k as int)),
                    decreases subs@.len() - k,
                {
                    proof {
                        assert(subs_v[k as int] == subs@[k as int]@);
                        let svs = self@.trusted_subjects->Some_0;
                        assert(svs == subs_v);
                        assert(enc_ok_subject(svs[k as int]));
                    }
                    encode_subject_to(&mut sb, &subs[k]);
                    k = k + 1;
                    proof {
                        assert(subs_v.take(k as int) =~= subs_v.take(k as int - 1).push(
                            subs_v[k as int - 1],
                        ));
                        lemma_enc_subject_list_snoc(subs_v.take(k as int - 1), subs_v[k as int - 1]);
                    }
                }
                proof {
                    assert(subs_v.take(subs_v.len() as int) =~= subs_v);
                }
                push_tlv(&mut body, Tag { class: 0, constructed: true, number: TAG_SEQUENCE }, &sb);
            },
            None => {
                proof {
                    assert(body@ + Seq::<u8>::empty() =~= body@);
                }
            },
        }
        let ghost g7 = body@;
        // ctlExtensions
        match &self.ctl_extensions {
            Some(ext) => {
                let mut eb: Vec<u8> = Vec::new();
                encode_raw_to(&mut eb, ext);
                proof {
                    assert(eb@ =~= enc_raw(self@.ctl_extensions->Some_0));
                }
                push_tlv(&mut body, Tag { class: 2, constructed: true, number: 0 }, &eb);
            },
            None => {
                proof {
                    assert(body@ + Seq::<u8>::empty() =~= body@);
                }
            },
        }
        proof {
            assert(body@ =~= enc_ctl_fields(self@));
        }
        let mut out: Vec<u8> = Vec::new();
        push_tlv(&mut out, Tag { class: 0, constructed: true, number: TAG_SEQUENCE }, &body);
        proof {
            assert(out@ =~= enc_ctl(self@));
        }
        out
    }
}

} // verus!
