//! The DER reader: tag-length-value framing and the ASN.1 primitive forms
//! that the certificate-trust-list schema is built from.
//!
//! Every executable reader in this module is specified against a
//! specification-level parse function over the byte sequence: the reader
//! returns exactly what the specification parse returns, success and failure
//! alike.  Indefinite lengths, non-minimal length forms, non-minimal INTEGER
//! contents and malformed BOOLEAN contents are rejected, as the distinguished
//! encoding rules demand.

use vstd::prelude::*;

verus! {

/// A decoding failure, carrying the byte offset at which it was detected.
#[derive(Clone, Copy, Debug, PartialEq, Eq, Structural)]
pub enum DerError {
    /// The input ran out before the announced end of a value.
    Truncated(usize),
    /// Bytes remained after a value that must end its window.
    TrailingBytes(usize),
    /// Malformed identifier octets (bad high-tag-number form, or a tag
    /// number too large to support).
    InvalidTag(usize),
    /// A length that is indefinite or not in minimal definite form.
    NonMinimalLength(usize),
    /// An INTEGER whose content is not minimal two's-complement.
    NonCanonicalInteger(usize),
    /// A BOOLEAN whose content is not a single 0x00 or 0xFF byte.
    InvalidBoolean(usize),
    /// A tag other than the one the schema demands at this position.
    UnexpectedTag(usize),
    /// OBJECT IDENTIFIER content that is not well-formed base-128.
    InvalidOid(usize),
    /// A decoded value outside the schema's allowed set.
    UnsupportedValue(usize),
    /// A time value whose content is not in the canonical DER form.
    InvalidTime(usize),
    /// A SET that the schema requires to be non-empty was empty.
    EmptySet(usize),
}

/// The identifier octets of a TLV in decoded form: the class (0 universal,
/// 1 application, 2 context-specific, 3 private), the constructed bit, and
/// the tag number.
#[derive(Clone, Copy, Debug, PartialEq, Eq, Structural)]
pub struct Tag {
    /// The tag class, 0 through 3.
    pub class: u8,
    /// Whether the constructed bit is set.
    pub constructed: bool,
    /// The tag number.
    pub number: u64,
}

/// Universal tag number of BOOLEAN.
pub const TAG_BOOLEAN: u64 = 1;
/// Universal tag number of INTEGER.
pub const TAG_INTEGER: u64 = 2;
/// Universal tag number of OCTET STRING.
pub const TAG_OCTET_STRING: u64 = 4;
/// Universal tag number of OBJECT IDENTIFIER.
pub const TAG_OID: u64 = 6;
/// Universal tag number of SEQUENCE.
pub const TAG_SEQUENCE: u64 = 16;
/// Universal tag number of SET.
pub const TAG_SET: u64 = 17;
/// Universal tag number of UTCTime.
pub const TAG_UTC_TIME: u64 = 23;
/// Universal tag number of GeneralizedTime.
pub const TAG_GENERALIZED_TIME: u64 = 24;

/// The universal primitive tag with the given number.
pub open spec fn uni_prim(number: u64) -> Tag {
    Tag { class: 0, constructed: false, number }
}

/// The universal constructed tag with the given number.
pub open spec fn uni_cons(number: u64) -> Tag {
    Tag { class: 0, constructed: true, number }
}

/// The context-specific constructed tag with the given number.
pub open spec fn ctx_cons(number: u64) -> Tag {
    Tag { class: 2, constructed: true, number }
}

/// A tag this library can represent: a valid class and a tag number below
/// 2^63 (at most nine base-128 digits).
pub open spec fn tag_wf(t: Tag) -> bool {
    t.class < 4 && t.number < 0x8000000000000000u64
}

/// The big-endian base-256 value of a byte string.
pub open spec fn be_nat(s: Seq<u8>) -> nat
    decreases s.len(),
{
    if s.len() == 0 {
        0
    } else {
        (be_nat(s.drop_last()) * 256 + s.last()) as nat
    }
}

/// 128 to the power n.
pub open spec fn p128(n: nat) -> nat
    decreases n,
{
    if n == 0 {
        1
    } else {
        128 * p128((n - 1) as nat)
    }
}

/// 256 to the power n.
pub open spec fn p256(n: nat) -> nat
    decreases n,
{
    if n == 0 {
        1
    } else {
        256 * p256((n - 1) as nat)
    }
}

/// A base-256 value fits below 256 to the number of its digits.
pub proof fn lemma_be_nat_bound(s: Seq<u8>)
    ensures
        be_nat(s) < p256(s.len()),
    decreases s.len(),
{
    if s.len() > 0 {
        lemma_be_nat_bound(s.drop_last());
    }
}

/// p128 is monotone.
pub proof fn lemma_p128_mono(a: nat, b: nat)
    requires
        a <= b,
    ensures
        p128(a) <= p128(b),
    decreases b,
{
    if a < b {
        lemma_p128_mono(a, (b - 1) as nat);
    }
}

/// Specification parse of the base-128 extension bytes of a high tag
/// number, starting from an already accumulated value.  At most nine
/// extension bytes are supported, which covers every tag number below 2^63.
pub open spec fn sp_tagnum(s: Seq<u8>, pos: int, end: int, acc: u64, count: u64) -> Result<
    (u64, int),
    DerError,
>
    decreases end - pos,
{
    if pos >= end {
        Err(DerError::Truncated(pos as usize))
    } else if count >= 9 {
        Err(DerError::InvalidTag(pos as usize))
    } else {
        let b = s[pos];
        if b < 0x80 {
            Ok((((acc * 0x80 + b) as u64), pos + 1))
        } else {
            sp_tagnum(s, pos + 1, end, ((acc * 0x80 + (b - 0x80)) as u64), (count + 1) as u64)
        }
    }
}

/// On success, base-128 parsing consumed at least one byte and stayed
/// inside the window.
pub proof fn lemma_sp_tagnum_bounds(s: Seq<u8>, pos: int, end: int, acc: u64, count: u64)
    ensures
        sp_tagnum(s, pos, end, acc, count) matches Ok((n, p2)) ==> pos < p2 <= end,
    decreases end - pos,
{
    if pos < end && count < 9 && s[pos] >= 0x80 {
        lemma_sp_tagnum_bounds(
            s,
            pos + 1,
            end,
            ((acc * 0x80 + (s[pos] - 0x80)) as u64),
            (count + 1) as u64,
        );
    }
}

/// Specification parse of a definite length at `pos`, yielding the content
/// window it announces.  Rejects indefinite and non-minimal forms; a length
/// wider than eight base-256 digits cannot fit in any supported input and
/// reads as truncation.
pub open spec fn sp_len(s: Seq<u8>, pos: int, end: int) -> Result<(int, int), DerError> {
    if pos >= end {
        Err(DerError::Truncated(pos as usize))
    } else {
        let b = s[pos];
        if b < 0x80 {
            if end - (pos + 1) < b {
                Err(DerError::Truncated(pos as usize))
            } else {
                Ok((pos + 1, pos + 1 + b))
            }
        } else if b == 0x80 || b == 0xFF {
            Err(DerError::NonMinimalLength(pos as usize))
        } else {
            let k = (b - 0x80) as int;
            if end - (pos + 1) < k {
                Err(DerError::Truncated(pos as usize))
            } else if s[pos + 1] == 0 {
                Err(DerError::NonMinimalLength(pos as usize))
            } else if k == 1 && s[pos + 1] < 0x80 {
                Err(DerError::NonMinimalLength(pos as usize))
            } else if k > 8 {
                Err(DerError::Truncated(pos as usize))
            } else {
                let len = be_nat(s.subrange(pos + 1, pos + 1 + k)) as int;
                if end - (pos + 1 + k) < len {
                    Err(DerError::Truncated(pos as usize))
                } else {
                    Ok((pos + 1 + k, pos + 1 + k + len))
                }
            }
        }
    }
}

/// On success, a length parse yields a window inside `[pos, end]`, past at
/// least the one length byte.
pub proof fn lemma_sp_len_bounds(s: Seq<u8>, pos: int, end: int)
    ensures
        sp_len(s, pos, end) matches Ok((cs, ce)) ==> pos + 1 <= cs <= ce <= end,
{
}

/// Specification parse of one TLV header at `pos`: the decoded tag and the
/// window `[content start, content end)` of its contents.
pub open spec fn sp_header(s: Seq<u8>, pos: int, end: int) -> Result<(Tag, int, int), DerError> {
    if pos >= end {
        Err(DerError::Truncated(pos as usize))
    } else {
        let b0 = s[pos];
        let cls = (b0 / 64) as u8;
        let cons = (b0 / 32) % 2 == 1;
        let low = (b0 % 32) as u64;
        if low < 31 {
            match sp_len(s, pos + 1, end) {
                Ok((cs, ce)) => Ok((Tag { class: cls, constructed: cons, number: low }, cs, ce)),
                Err(e) => Err(e),
            }
        } else if pos + 1 >= end {
            Err(DerError::Truncated((pos + 1) as usize))
        } else if s[pos + 1] == 0x80 {
            Err(DerError::InvalidTag((pos + 1) as usize))
        } else {
            match sp_tagnum(s, pos + 1, end, 0, 0) {
                Ok((n, p2)) => {
                    if n < 31 {
                        Err(DerError::InvalidTag(pos as usize))
                    } else {
                        match sp_len(s, p2, end) {
                            Ok((cs, ce)) => Ok(
                                (Tag { class: cls, constructed: cons, number: n }, cs, ce),
                            ),
                            Err(e) => Err(e),
                        }
                    }
                },
                Err(e) => Err(e),
            }
        }
    }
}

/// On success, a header parse consumed at least two bytes and its content
/// window lies inside `[pos, end]`.
pub proof fn lemma_sp_header_bounds(s: Seq<u8>, pos: int, end: int)
    ensures
        sp_header(s, pos, end) matches Ok((t, cs, ce)) ==> pos + 2 <= cs <= ce <= end,
{
    if pos < end {
        let b0 = s[pos];
        let low = (b0 % 32) as u64;
        if low < 31 {
            lemma_sp_len_bounds(s, pos + 1, end);
        } else if pos + 1 < end && s[pos + 1] != 0x80 {
            lemma_sp_tagnum_bounds(s, pos + 1, end, 0, 0);
            match sp_tagnum(s, pos + 1, end, 0, 0) {
                Ok((n, p2)) => lemma_sp_len_bounds(s, p2, end),
                Err(_) => (),
            }
        }
    }
}

/// Reads the base-128 extension bytes of a high tag number.
fn read_tagnum(input: &Vec<u8>, pos: usize, end: usize) -> (r: Result<(u64, usize), DerError>)
    requires
        pos <= end <= input@.len(),
    ensures
        ({
            let sp = sp_tagnum(input@, pos as int, end as int, 0, 0);
            match r {
                Ok((n, p2)) => sp == Ok::<(u64, int), DerError>((n, p2 as int)) && pos < p2 <= end,
                Err(e) => sp == Err::<(u64, int), DerError>(e),
            }
        }),
{
    let mut acc: u64 = 0;
    let mut count: u64 = 0;
    let mut p: usize = pos;
    loop
        invariant
            pos <= p <= end <= input@.len(),
            count <= 9,
            acc < p128(count as nat),
            sp_tagnum(input@, pos as int, end as int, 0, 0) == sp_tagnum(
                input@,
                p as int,
                end as int,
                acc,
                count,
            ),
        decreases end - p,
    {
        if p >= end {
            return Err(DerError::Truncated(p));
        }
        if count >= 9 {
            return Err(DerError::InvalidTag(p));
        }
        let b = input[p];
        proof {
            lemma_p128_mono(count as nat, 8);
            reveal_with_fuel(p128, 10);
            assert(p128(8) == 0x100000000000000);
            assert(acc < 0x100000000000000);
        }
        if b < 0x80 {
            let n: u64 = acc * 0x80 + (b as u64);
            proof {
                lemma_sp_tagnum_bounds(input@, pos as int, end as int, 0, 0);
            }
            return Ok((n, p + 1));
        }
        acc = acc * 0x80 + ((b - 0x80) as u64);
        count = count + 1;
        p = p + 1;
        proof {
            assert(acc < p128(count as nat));
        }
    }
}

/// Reads a definite length and returns the content window it announces.
fn read_len(input: &Vec<u8>, pos: usize, end: usize) -> (r: Result<(usize, usize), DerError>)
    requires
        pos <= end <= input@.len(),
    ensures
        ({
            let sp = sp_len(input@, pos as int, end as int);
            match r {
                Ok((cs, ce)) => sp == Ok::<(int, int), DerError>((cs as int, ce as int)) && pos < cs
                    <= ce <= end,
                Err(e) => sp == Err::<(int, int), DerError>(e),
            }
        }),
{
    if pos >= end {
        return Err(DerError::Truncated(pos));
    }
    let b = input[pos];
    if b < 0x80 {
        let len = b as usize;
        if end - (pos + 1) < len {
            return Err(DerError::Truncated(pos));
        }
        return Ok((pos + 1, pos + 1 + len));
    }
    if b == 0x80 || b == 0xFF {
        return Err(DerError::NonMinimalLength(pos));
    }
    let k = (b - 0x80) as usize;
    if end - (pos + 1) < k {
        return Err(DerError::Truncated(pos));
    }
    if input[pos + 1] == 0 {
        return Err(DerError::NonMinimalLength(pos));
    }
    if k == 1 && input[pos + 1] < 0x80 {
        return Err(DerError::NonMinimalLength(pos));
    }
    if k > 8 {
        return Err(DerError::Truncated(pos));
    }
    let mut acc: u64 = 0;
    let mut j: usize = 0;
    while j < k
        invariant
            j <= k <= 8,
            pos + 1 + k <= end <= input@.len(),
            acc == be_nat(input@.subrange(pos + 1, pos + 1 + j)),
        decreases k - j,
    {
        proof {
            lemma_be_nat_bound(input@.subrange(pos as int + 1, pos as int + 1 + j));
            reveal_with_fuel(p256, 9);
            assert(p256(7) == 0x100000000000000);
            if j < 7 {
                assert(p256(j as nat) <= p256(7)) by {
                    lemma_p256_mono(j as nat, 7);
                }
            }
            assert(acc <= 0xFFFFFFFFFFFFFF);
        }
        let b2 = input[pos + 1 + j];
        acc = acc * 256 + (b2 as u64);
        j = j + 1;
        proof {
            let sub_new = input@.subrange(pos as int + 1, pos as int + 1 + j);
            assert(sub_new.drop_last() =~= input@.subrange(pos as int + 1, pos as int + j));
            assert(sub_new.last() == input@[pos as int + j]);
        }
    }
    let rem = end - (pos + 1 + k);
    if acc > rem as u64 {
        return Err(DerError::Truncated(pos));
    }
    let len = acc as usize;
    Ok((pos + 1 + k, pos + 1 + k + len))
}

/// The value of p256 at eight: the first length that needs nine digits.
pub proof fn lemma_p256_8()
    ensures
        p256(8) == 0x10000000000000000,
{
    reveal_with_fuel(p256, 9);
}

/// p256 is monotone.
pub proof fn lemma_p256_mono(a: nat, b: nat)
    requires
        a <= b,
    ensures
        p256(a) <= p256(b),
    decreases b,
{
    if a < b {
        lemma_p256_mono(a, (b - 1) as nat);
    }
}

/// Reads one TLV header: the tag and the window of its content bytes.
pub fn read_header(input: &Vec<u8>, pos: usize, end: usize) -> (r: Result<
    (Tag, usize, usize),
    DerError,
>)
    requires
        pos <= end <= input@.len(),
    ensures
        ({
            let sp = sp_header(input@, pos as int, end as int);
            match r {
                Ok((t, cs, ce)) => sp == Ok::<(Tag, int, int), DerError>((t, cs as int, ce as int))
                    && pos + 2 <= cs <= ce <= end,
                Err(e) => sp == Err::<(Tag, int, int), DerError>(e),
            }
        }),
{
    if pos >= end {
        return Err(DerError::Truncated(pos));
    }
    let b0 = input[pos];
    let cls = b0 / 64;
    let cons = (b0 / 32) % 2 == 1;
    let low = (b0 % 32) as u64;
    if low < 31 {
        match read_len(input, pos + 1, end) {
            Ok((cs, ce)) => Ok((Tag { class: cls, constructed: cons, number: low }, cs, ce)),
            Err(e) => Err(e),
        }
    } else if pos + 1 >= end {
        Err(DerError::Truncated(pos + 1))
    } else if input[pos + 1] == 0x80 {
        Err(DerError::InvalidTag(pos + 1))
    } else {
        match read_tagnum(input, pos + 1, end) {
            Ok((n, p2)) => {
                if n < 31 {
                    Err(DerError::InvalidTag(pos))
                } else {
                    match read_len(input, p2, end) {
                        Ok((cs, ce)) => Ok(
                            (Tag { class: cls, constructed: cons, number: n }, cs, ce),
                        ),
                        Err(e) => Err(e),
                    }
                }
            },
            Err(e) => Err(e),
        }
    }
}

/// Compares two byte vectors for equality of contents.
pub fn bytes_eq(a: &Vec<u8>, b: &Vec<u8>) -> (r: bool)
    ensures
        r == (a@ == b@),
{
    if a.len() != b.len() {
        proof {
            assert(a@.len() != b@.len());
        }
        return false;
    }
    let mut i: usize = 0;
    while i < a.len()
        invariant
            i <= a@.len(),
            a@.len() == b@.len(),
            forall|j: int| 0 <= j < i ==> a@[j] == b@[j],
        decreases a@.len() - i,
    {
        if a[i] != b[i] {
            return false;
        }
        i = i + 1;
    }
    proof {
        assert(a@ =~= b@);
    }
    true
}

/// An object identifier, held as its DER content octets.  Comparison is by
/// exact byte-sequence equality.
#[derive(Clone, Debug)]
pub struct Identifier {
    /// The base-128 content octets of the identifier.
    pub bytes: Vec<u8>,
}

impl View for Identifier {
    type V = Seq<u8>;

    open spec fn view(&self) -> Seq<u8> {
        self.bytes@
    }
}

impl PartialEq for Identifier {
    fn eq(&self, other: &Identifier) -> (r: bool) {
        bytes_eq(&self.bytes, &other.bytes)
    }
}

impl vstd::std_specs::cmp::PartialEqSpecImpl for Identifier {
    open spec fn obeys_eq_spec() -> bool {
        true
    }

    open spec fn eq_spec(&self, other: &Identifier) -> bool {
        self@ == other@
    }
}

/// An undecoded value: its tag and its raw content octets, kept verbatim.
#[derive(Clone, Debug, PartialEq, Eq)]
pub struct RawValue {
    /// The decoded tag of the value.
    pub tag: Tag,
    /// The content octets, undecoded.
    pub content: Vec<u8>,
}

/// The mathematical model of a [`RawValue`].
pub struct RawValueView {
    /// The decoded tag of the value.
    pub tag: Tag,
    /// The content octets, undecoded.
    pub content: Seq<u8>,
}

impl View for RawValue {
    type V = RawValueView;

    open spec fn view(&self) -> RawValueView {
        RawValueView { tag: self.tag, content: self.content@ }
    }
}

/// Well-formed OBJECT IDENTIFIER content: non-empty, the final byte ends a
/// base-128 group, and no group starts with the redundant byte 0x80.
pub open spec fn oid_wf(c: Seq<u8>) -> bool {
    &&& c.len() >= 1
    &&& c[c.len() - 1] < 0x80
    &&& forall|i: int|
        0 <= i < c.len() && (i == 0 || c[i - 1] < 0x80) ==> #[trigger] c[i] != 0x80
}

/// Checks [`oid_wf`] on the bytes of `input` in `[start, end)`.
pub fn oid_content_ok(input: &Vec<u8>, start: usize, end: usize) -> (r: bool)
    requires
        start <= end <= input@.len(),
    ensures
        r == oid_wf(input@.subrange(start as int, end as int)),
{
    let ghost c = input@.subrange(start as int, end as int);
    if end == start {
        return false;
    }
    if input[end - 1] >= 0x80 {
        proof {
            assert(c[c.len() - 1] == input@[end - 1]);
        }
        return false;
    }
    let mut i: usize = start;
    while i < end
        invariant
            start <= i <= end <= input@.len(),
            end > start,
            c == input@.subrange(start as int, end as int),
            forall|j: int|
                0 <= j < i - start && (j == 0 || c[j - 1] < 0x80) ==> #[trigger] c[j] != 0x80,
        decreases end - i,
    {
        if (i == start || input[i - 1] < 0x80) && input[i] == 0x80 {
            proof {
                let j = i - start;
                assert(c[j as int] == input@[i as int]);
                assert(j > 0 ==> c[j - 1] == input@[i - 1]);
            }
            return false;
        }
        i = i + 1;
        proof {
            let j = i - 1 - start;
            assert(c[j as int] == input@[i - 1]);
            assert(j > 0 ==> c[j - 1] == input@[i - 2]);
        }
    }
    proof {
        assert(c[c.len() - 1] == input@[end - 1]);
    }
    true
}

/// The base-128 group values of OBJECT IDENTIFIER content from position
/// `i` onward, continuing a group already accumulated to `acc`.
pub open spec fn oid_arcs_from(c: Seq<u8>, i: int, acc: nat) -> Seq<nat>
    decreases c.len() - i,
{
    if i < 0 || i >= c.len() {
        Seq::empty()
    } else {
        let b = c[i];
        if b < 0x80 {
            seq![(acc * 128 + b) as nat] + oid_arcs_from(c, i + 1, 0)
        } else {
            oid_arcs_from(c, i + 1, (acc * 128 + (b - 0x80)) as nat)
        }
    }
}

/// The dotted-notation components carried by a group-value sequence: the
/// first group unpacks into two components by the `first * 40 + second`
/// packing rule.
pub open spec fn unpack_arcs(raws: Seq<nat>) -> Seq<nat> {
    if raws.len() == 0 {
        Seq::empty()
    } else {
        let g0 = raws[0];
        let first: nat = if g0 < 40 {
            0
        } else if g0 < 80 {
            1
        } else {
            2
        };
        seq![first, (g0 - 40 * first) as nat] + raws.drop_first()
    }
}

/// The dotted-notation components of OBJECT IDENTIFIER content.
pub open spec fn oid_components(c: Seq<u8>) -> Seq<nat> {
    unpack_arcs(oid_arcs_from(c, 0, 0))
}

/// In well-formed content, every position starts or continues a group
/// that completes, and continuing never shrinks the group's value.
pub proof fn lemma_oid_group_completes(c: Seq<u8>, i: int, acc: nat)
    requires
        oid_wf(c),
        0 <= i < c.len(),
    ensures
        oid_arcs_from(c, i, acc).len() >= 1,
        oid_arcs_from(c, i, acc)[0] >= acc,
    decreases c.len() - i,
{
    let b = c[i];
    if b < 0x80 {
        assert(oid_arcs_from(c, i, acc)[0] == acc * 128 + b);
        assert(acc * 128 >= acc) by (nonlinear_arith)
            requires
                acc >= 0,
        ;
    } else {
        assert(i + 1 < c.len()) by {
            assert(c[c.len() - 1] < 0x80);
        }
        let acc2: nat = (acc * 128 + (b - 0x80)) as nat;
        lemma_oid_group_completes(c, i + 1, acc2);
        assert(acc * 128 >= acc) by (nonlinear_arith)
            requires
                acc >= 0,
        ;
    }
}

impl Identifier {
    /// The dotted-notation components of this identifier: the base-128
    /// groups of its content, with the first group unpacked by the
    /// `first * 40 + second` packing rule.  `None` exactly when the
    /// content is not well formed, or some group value does not fit in a
    /// word.
    pub fn components(&self) -> (r: Option<Vec<u64>>)
        ensures
            ({
                let raws = oid_arcs_from(self@, 0, 0);
                match r {
                    Some(v) => {
                        &&& oid_wf(self@)
                        &&& v@.map_values(|x: u64| x as nat) == oid_components(self@)
                        &&& forall|j: int|
                            0 <= j < raws.len() ==> #[trigger] raws[j] < 0x10000000000000000
                    },
                    None => !oid_wf(self@) || exists|j: int|
                        0 <= j < raws.len() && #[trigger] raws[j] >= 0x10000000000000000,
                }
            }),
    {
        let n = self.bytes.len();
        if !oid_content_ok(&self.bytes, 0, n) {
            proof {
                assert(self.bytes@.subrange(0, n as int) =~= self@);
            }
            return None;
        }
        proof {
            assert(self.bytes@.subrange(0, n as int) =~= self@);
        }
        let ghost c = self@;
        let mut out: Vec<u64> = Vec::new();
        let mut acc: u64 = 0;
        let ghost mut raws_done: Seq<nat> = Seq::empty();
        let mut i: usize = 0;
        proof {
            assert(Seq::<nat>::empty() + oid_arcs_from(c, 0, 0) =~= oid_arcs_from(c, 0, 0));
            assert(out@.map_values(|x: u64| x as nat) =~= unpack_arcs(raws_done));
        }
        while i < n
            invariant
                i <= n,
                n == self.bytes@.len(),
                c == self@,
                oid_wf(c),
                oid_arcs_from(c, 0, 0) == raws_done + oid_arcs_from(c, i as int, acc as nat),
                out@.map_values(|x: u64| x as nat) == unpack_arcs(raws_done),
                forall|j: int| 0 <= j < raws_done.len() ==> #[trigger] raws_done[j] < 0x10000000000000000,
                (raws_done.len() == 0) <==> (out@.len() == 0),
            decreases n - i,
        {
            let b = self.bytes[i];
            let d = b % 0x80;
            if acc > (0xFFFFFFFFFFFFFFFF - (d as u64)) / 0x80 {
                proof {
                    assert(acc * 0x80 + d >= 0x10000000000000000) by (nonlinear_arith)
                        requires
                            acc > (0xFFFFFFFFFFFFFFFFu64 - d) / 0x80,
                            0 <= d < 0x80,
                            acc >= 0,
                    ;
                    lemma_oid_group_completes(c, i as int, acc as nat);
                    let rest = oid_arcs_from(c, i as int, acc as nat);
                    let big: nat = rest[0];
                    if c[i as int] < 0x80 {
                        assert(big == acc * 128 + c[i as int]);
                        assert(c[i as int] == b);
                        assert(b < 0x80 ==> d == b);
                        assert(big >= acc * 128 + d);
                    } else {
                        assert(i + 1 < c.len()) by {
                            assert(c[c.len() - 1] < 0x80);
                        }
                        let acc2: nat = (acc * 128 + (c[i as int] - 0x80)) as nat;
                        lemma_oid_group_completes(c, i as int + 1, acc2);
                        assert(big == oid_arcs_from(c, i as int + 1, acc2)[0]);
                        assert((c[i as int] - 0x80) as nat == d as nat);
                        assert(big >= acc2);
                    }
                    assert(big >= 0x10000000000000000);
                    let j = raws_done.len() as int;
                    assert(oid_arcs_from(c, 0, 0)[j] == big);
                }
                return None;
            }
            let prev = acc;
            acc = acc * 0x80 + (d as u64);
            if b < 0x80 {
                proof {
                    assert(oid_arcs_from(c, i as int, prev as nat) == seq![acc as nat]
                        + oid_arcs_from(c, i as int + 1, 0));
                }
                if out.len() == 0 {
                    let first: u64 = if acc < 40 {
                        0
                    } else if acc < 80 {
                        1
                    } else {
                        2
                    };
                    out.push(first);
                    out.push(acc - 40 * first);
                    proof {
                        assert(raws_done.len() == 0);
                        assert(raws_done + (seq![acc as nat] + oid_arcs_from(c, i as int + 1, 0))
                            =~= raws_done.push(acc as nat) + oid_arcs_from(c, i as int + 1, 0));
                        raws_done = raws_done.push(acc as nat);
                        assert(raws_done[0] == acc as nat);
                        assert(raws_done.drop_first() =~= Seq::<nat>::empty());
                        assert(seq![first as nat, (acc - 40 * first) as nat] + Seq::<nat>::empty()
                            =~= seq![first as nat, (acc - 40 * first) as nat]);
                        assert(out@.map_values(|x: u64| x as nat) =~= unpack_arcs(raws_done));
                    }
                } else {
                    out.push(acc);
                    proof {
                        let old_raws = raws_done;
                        assert(raws_done + (seq![acc as nat] + oid_arcs_from(c, i as int + 1, 0))
                            =~= raws_done.push(acc as nat) + oid_arcs_from(c, i as int + 1, 0));
                        raws_done = raws_done.push(acc as nat);
                        assert(old_raws.len() >= 1) by {
                            if old_raws.len() == 0 {
                                assert(unpack_arcs(old_raws).len() == 0);
                            }
                        }
                        assert(raws_done[0] == old_raws[0]);
                        assert(raws_done.drop_first() =~= old_raws.drop_first().push(acc as nat));
                        let g0 = old_raws[0];
                        let first: nat = if g0 < 40 {
                            0nat
                        } else if g0 < 80 {
                            1nat
                        } else {
                            2nat
                        };
                        assert(seq![first, (g0 - 40 * first) as nat] + raws_done.drop_first()
                            =~= (seq![first, (g0 - 40 * first) as nat]
                            + old_raws.drop_first()).push(acc as nat));
                        assert(out@.map_values(|x: u64| x as nat) =~= unpack_arcs(raws_done));
                    }
                }
                acc = 0;
            } else {
                proof {
                    assert(oid_arcs_from(c, i as int, prev as nat) == oid_arcs_from(
                        c,
                        i as int + 1,
                        acc as nat,
                    ));
                }
            }
            i = i + 1;
        }
        proof {
            assert(oid_arcs_from(c, i as int, acc as nat) =~= Seq::<nat>::empty());
            assert(raws_done + Seq::<nat>::empty() =~= raws_done);
            assert(oid_arcs_from(c, 0, 0) == raws_done);
        }
        Some(out)
    }
}

/// Specification parse of a BOOLEAN at `pos`.
pub open spec fn sp_bool(s: Seq<u8>, pos: int, end: int) -> Result<(bool, int), DerError> {
    match sp_header(s, pos, end) {
        Ok((t, cs, ce)) => {
            if t != uni_prim(TAG_BOOLEAN) {
                Err(DerError::UnexpectedTag(pos as usize))
            } else if ce - cs != 1 {
                Err(DerError::InvalidBoolean(cs as usize))
            } else if s[cs] == 0 {
                Ok((false, ce))
            } else if s[cs] == 0xFF {
                Ok((true, ce))
            } else {
                Err(DerError::InvalidBoolean(cs as usize))
            }
        },
        Err(e) => Err(e),
    }
}

/// Reads a BOOLEAN, accepting only the two canonical content bytes.
pub fn read_bool(input: &Vec<u8>, pos: usize, end: usize) -> (r: Result<(bool, usize), DerError>)
    requires
        pos <= end <= input@.len(),
    ensures
        ({
            let sp = sp_bool(input@, pos as int, end as int);
            match r {
                Ok((v, p)) => sp == Ok::<(bool, int), DerError>((v, p as int)) && p <= end,
                Err(e) => sp == Err::<(bool, int), DerError>(e),
            }
        }),
{
    match read_header(input, pos, end) {
        Ok((t, cs, ce)) => {
            if !(t.class == 0 && !t.constructed && t.number == TAG_BOOLEAN) {
                Err(DerError::UnexpectedTag(pos))
            } else if ce - cs != 1 {
                Err(DerError::InvalidBoolean(cs))
            } else if input[cs] == 0 {
                Ok((false, ce))
            } else if input[cs] == 0xFF {
                Ok((true, ce))
            } else {
                Err(DerError::InvalidBoolean(cs))
            }
        },
        Err(e) => Err(e),
    }
}

/// Minimal two's-complement INTEGER content: non-empty, and the first nine
/// bits are not all equal (no redundant leading byte).
pub open spec fn int_content_ok(c: Seq<u8>) -> bool {
    c.len() >= 1 && !(c.len() >= 2 && ((c[0] == 0 && c[1] < 0x80) || (c[0] == 0xFF && c[1]
        >= 0x80)))
}

/// Specification parse of an INTEGER at `pos`, yielding its content bytes.
pub open spec fn sp_integer(s: Seq<u8>, pos: int, end: int) -> Result<(Seq<u8>, int), DerError> {
    match sp_header(s, pos, end) {
        Ok((t, cs, ce)) => {
            if t != uni_prim(TAG_INTEGER) {
                Err(DerError::UnexpectedTag(pos as usize))
            } else if !int_content_ok(s.subrange(cs, ce)) {
                Err(DerError::NonCanonicalInteger(cs as usize))
            } else {
                Ok((s.subrange(cs, ce), ce))
            }
        },
        Err(e) => Err(e),
    }
}

/// Reads an INTEGER, rejecting non-minimal encodings, and returns its
/// content bytes: a big-endian two's-complement big integer.
pub fn read_integer(input: &Vec<u8>, pos: usize, end: usize) -> (r: Result<
    (Vec<u8>, usize),
    DerError,
>)
    requires
        pos <= end <= input@.len(),
    ensures
        ({
            let sp = sp_integer(input@, pos as int, end as int);
            match r {
                Ok((v, p)) => sp == Ok::<(Seq<u8>, int), DerError>((v@, p as int)) && p <= end,
                Err(e) => sp == Err::<(Seq<u8>, int), DerError>(e),
            }
        }),
{
    match read_header(input, pos, end) {
        Ok((t, cs, ce)) => {
            if !(t.class == 0 && !t.constructed && t.number == TAG_INTEGER) {
                return Err(DerError::UnexpectedTag(pos));
            }
            let ghost c = input@.subrange(cs as int, ce as int);
            if ce == cs {
                return Err(DerError::NonCanonicalInteger(cs));
            }
            if ce - cs >= 2 {
                let b0 = input[cs];
                let b1 = input[cs + 1];
                proof {
                    assert(c[0] == input@[cs as int]);
                    assert(c[1] == input@[cs as int + 1]);
                }
                if (b0 == 0 && b1 < 0x80) || (b0 == 0xFF && b1 >= 0x80) {
                    return Err(DerError::NonCanonicalInteger(cs));
                }
            }
            let v = copy_range(input, cs, ce);
            Ok((v, ce))
        },
        Err(e) => Err(e),
    }
}

/// Specification parse of an OBJECT IDENTIFIER at `pos`.
pub open spec fn sp_oid(s: Seq<u8>, pos: int, end: int) -> Result<(Seq<u8>, int), DerError> {
    match sp_header(s, pos, end) {
        Ok((t, cs, ce)) => {
            if t != uni_prim(TAG_OID) {
                Err(DerError::UnexpectedTag(pos as usize))
            } else if !oid_wf(s.subrange(cs, ce)) {
                Err(DerError::InvalidOid(cs as usize))
            } else {
                Ok((s.subrange(cs, ce), ce))
            }
        },
        Err(e) => Err(e),
    }
}

/// Reads an OBJECT IDENTIFIER, validating its base-128 content.
pub fn read_oid(input: &Vec<u8>, pos: usize, end: usize) -> (r: Result<
    (Identifier, usize),
    DerError,
>)
    requires
        pos <= end <= input@.len(),
    ensures
        ({
            let sp = sp_oid(input@, pos as int, end as int);
            match r {
                Ok((v, p)) => sp == Ok::<(Seq<u8>, int), DerError>((v@, p as int)) && p <= end,
                Err(e) => sp == Err::<(Seq<u8>, int), DerError>(e),
            }
        }),
{
    match read_header(input, pos, end) {
        Ok((t, cs, ce)) => {
            if !(t.class == 0 && !t.constructed && t.number == TAG_OID) {
                return Err(DerError::UnexpectedTag(pos));
            }
            if !oid_content_ok(input, cs, ce) {
                return Err(DerError::InvalidOid(cs));
            }
            let v = copy_range(input, cs, ce);
            Ok((Identifier { bytes: v }, ce))
        },
        Err(e) => Err(e),
    }
}

/// Specification parse of an OCTET STRING at `pos`.
pub open spec fn sp_octet_string(s: Seq<u8>, pos: int, end: int) -> Result<
    (Seq<u8>, int),
    DerError,
> {
    match sp_header(s, pos, end) {
        Ok((t, cs, ce)) => {
            if t != uni_prim(TAG_OCTET_STRING) {
                Err(DerError::UnexpectedTag(pos as usize))
            } else {
                Ok((s.subrange(cs, ce), ce))
            }
        },
        Err(e) => Err(e),
    }
}

/// Reads an OCTET STRING and returns its content bytes.
pub fn read_octet_string(input: &Vec<u8>, pos: usize, end: usize) -> (r: Result<
    (Vec<u8>, usize),
    DerError,
>)
    requires
        pos <= end <= input@.len(),
    ensures
        ({
            let sp = sp_octet_string(input@, pos as int, end as int);
            match r {
                Ok((v, p)) => sp == Ok::<(Seq<u8>, int), DerError>((v@, p as int)) && p <= end,
                Err(e) => sp == Err::<(Seq<u8>, int), DerError>(e),
            }
        }),
{
    match read_header(input, pos, end) {
        Ok((t, cs, ce)) => {
            if !(t.class == 0 && !t.constructed && t.number == TAG_OCTET_STRING) {
                return Err(DerError::UnexpectedTag(pos));
            }
            let v = copy_range(input, cs, ce);
            Ok((v, ce))
        },
        Err(e) => Err(e),
    }
}

/// Specification parse of one arbitrary TLV at `pos`, kept undecoded.
pub open spec fn sp_raw(s: Seq<u8>, pos: int, end: int) -> Result<(RawValueView, int), DerError> {
    match sp_header(s, pos, end) {
        Ok((t, cs, ce)) => Ok((RawValueView { tag: t, content: s.subrange(cs, ce) }, ce)),
        Err(e) => Err(e),
    }
}

/// Reads one arbitrary TLV at `pos` and keeps it undecoded.
pub fn read_raw(input: &Vec<u8>, pos: usize, end: usize) -> (r: Result<
    (RawValue, usize),
    DerError,
>)
    requires
        pos <= end <= input@.len(),
    ensures
        ({
            let sp = sp_raw(input@, pos as int, end as int);
            match r {
                Ok((v, p)) => sp == Ok::<(RawValueView, int), DerError>((v@, p as int)) && p <= end,
                Err(e) => sp == Err::<(RawValueView, int), DerError>(e),
            }
        }),
{
    match read_header(input, pos, end) {
        Ok((t, cs, ce)) => {
            let v = copy_range(input, cs, ce);
            Ok((RawValue { tag: t, content: v }, ce))
        },
        Err(e) => Err(e),
    }
}

/// Copies the bytes of `input` in `[start, end)` into a fresh vector.
pub fn copy_range(input: &Vec<u8>, start: usize, end: usize) -> (out: Vec<u8>)
    requires
        start <= end <= input@.len(),
    ensures
        out@ == input@.subrange(start as int, end as int),
{
    let mut out: Vec<u8> = Vec::new();
    let mut i: usize = start;
    while i < end
        invariant
            start <= i <= end <= input@.len(),
            out@ == input@.subrange(start as int, i as int),
        decreases end - i,
    {
        out.push(input[i]);
        i = i + 1;
        proof {
            assert(out@ =~= input@.subrange(start as int, i as int));
        }
    }
    out
}

} // verus!
