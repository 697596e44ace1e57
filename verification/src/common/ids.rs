//! Opaque 16-byte identifiers for tenants and timelines.
//!
//! A *tenant* is one logically isolated database instance. A *timeline* is a
//! single branch of that tenant's history. Both are rendered as 32 lower-case
//! hexadecimal characters.

use std::str::FromStr;

use vstd::prelude::*;
use vstd::utf8::encode_utf8;

use crate::common::error::Error;
use crate::text::{
    chars_of, copy_str, decimal, digit_char, digit_value, hex_fixed, int_error_text, parse_digits,
    parse_uint, push_decimal, push_hex_fixed, read_uint, IntError,
};

verus! {

/// Two lower-case hexadecimal digits for each byte.
pub open spec fn id_text(b: Seq<u8>) -> Seq<char>
    decreases b.len(),
{
    if b.len() == 0 {
        Seq::empty()
    } else {
        id_text(b.drop_last()) + hex_fixed(b.last() as nat, 2)
    }
}

/// The byte that the pair of characters at `2 * i` writes.
pub open spec fn pair_value(s: Seq<char>, i: int) -> Result<nat, IntError> {
    parse_uint(s.subrange(2 * i, 2 * i + 2), 16, 255)
}

/// The 16 bytes that `s` writes, or why it writes none; `name` is what is read.
pub open spec fn id_parse(name: Seq<char>, s: Seq<char>) -> Result<Seq<u8>, Seq<char>> {
    if encode_utf8(s).len() != 32 {
        Err(name + " must be 32 hex chars, got "@ + decimal(encode_utf8(s).len()))
    } else if s.len() == 32 && (forall|i: int| 0 <= i < 16 ==> (#[trigger] pair_value(s, i)) is Ok) {
        Ok(Seq::new(16, |i: int| pair_value(s, i)->Ok_0 as u8))
    } else {
        Err("invalid hex in "@ + name + ": "@ + int_error_text(IntError::InvalidDigit))
    }
}

fn push_id(out: &mut String, b: &[u8; 16])
    ensures
        final(out)@ == old(out)@ + id_text(b@),
{
    let ghost before = out@;
    let mut i: usize = 0;
    assert(before + id_text(b@.take(0)) =~= before);
    while i < 16
        invariant
            i <= 16,
            b@.len() == 16,
            out@ == before + id_text(b@.take(i as int)),
        decreases 16 - i,
    {
        push_hex_fixed(out, b[i] as u64, 2);
        assert(b@.take(i + 1).drop_last() =~= b@.take(i as int));
        assert(out@ =~= before + id_text(b@.take(i + 1)));
        i += 1;
    }
    assert(b@.take(16) =~= b@);
}

fn invalid_hex(name: &str) -> (e: Error)
    ensures
        e.reason() == "invalid hex in "@ + name@ + ": "@ + int_error_text(IntError::InvalidDigit),
{
    let mut m = copy_str("invalid hex in ");
    m.push_str(name);
    m.push_str(": ");
    m.push_str("invalid digit found in string");
    Error::parse(m)
}

fn read_id(name: &str, s: &str) -> (r: Result<[u8; 16], Error>)
    ensures
        match id_parse(name@, s@) {
            Ok(b) => r matches Ok(a) && a@ == b,
            Err(m) => r matches Err(e) && e.reason() == m,
        },
{
    let n: usize = s.as_bytes().len();
    if n != 32 {
        let mut m = copy_str(name);
        m.push_str(" must be 32 hex chars, got ");
        push_decimal(&mut m, n as u64);
        return Err(Error::parse(m));
    }
    let chars = chars_of(s);
    if chars.len() != 32 {
        return Err(invalid_hex(name));
    }
    let mut bytes: [u8; 16] = [0u8; 16];
    let mut i: usize = 0;
    while i < 16
        invariant
            i <= 16,
            chars@ == s@,
            chars@.len() == 32,
            encode_utf8(s@).len() == 32,
            bytes@.len() == 16,
            forall|j: int|
                0 <= j < i ==> (#[trigger] pair_value(s@, j)) is Ok && bytes@[j] == pair_value(
                    s@,
                    j,
                )->Ok_0 as u8,
        decreases 16 - i,
    {
        let pair = vstd::slice::slice_subrange(chars.as_slice(), 2 * i, 2 * i + 2);
        match read_uint(pair, 16, 255) {
            Ok(v) => {
                assert(pair_value(s@, i as int) is Ok);
                bytes[i] = v as u8;
            },
            Err(_) => {
                assert(pair_value(s@, i as int) is Err);
                return Err(invalid_hex(name));
            },
        }
        i += 1;
    }
    assert(bytes@ =~= Seq::new(16, |i: int| pair_value(s@, i)->Ok_0 as u8));
    Ok(bytes)
}

proof fn lemma_hex_pair(l: nat)
    requires
        l < 256,
    ensures
        hex_fixed(l, 2).len() == 2,
        parse_uint(hex_fixed(l, 2), 16, 255) == Ok::<nat, IntError>(l),
        vstd::utf8::is_ascii_chars(hex_fixed(l, 2)),
{
    let p = hex_fixed(l, 2);
    let h = hex_fixed(l / 16, 1);
    assert(h == hex_fixed(l / 16 / 16, 0).push(digit_char(l / 16 % 16, false)));
    assert(p.drop_last() =~= h);
    assert(h.drop_last() =~= Seq::<char>::empty());
    assert(parse_digits(h.drop_last(), 16, 255) == Ok::<nat, IntError>(0));
    assert(digit_value(h.last(), 16) == Some(l / 16));
    assert(digit_value(p.last(), 16) == Some(l % 16));
    assert(parse_digits(h, 16, 255) == Ok::<nat, IntError>(l / 16));
    assert(p[0] == digit_char(l / 16, false));
}

proof fn lemma_id_text(b: Seq<u8>)
    ensures
        id_text(b).len() == 2 * b.len(),
        forall|i: int| 0 <= i < b.len() ==> #[trigger] pair_value(id_text(b), i) == Ok::<nat, IntError>(b[i] as nat),
        vstd::utf8::is_ascii_chars(id_text(b)),
    decreases b.len(),
{
    if b.len() > 0 {
        let t = id_text(b);
        let head = id_text(b.drop_last());
        let l = b.last() as nat;
        let p = hex_fixed(l, 2);
        lemma_id_text(b.drop_last());
        lemma_hex_pair(l);
        assert forall|i: int| 0 <= i < b.len() implies #[trigger] pair_value(t, i) == Ok::<nat, IntError>(
            b[i] as nat,
        ) by {
            if i < b.len() - 1 {
                assert(t.subrange(2 * i, 2 * i + 2) =~= head.subrange(2 * i, 2 * i + 2));
                assert(pair_value(head, i) == Ok::<nat, IntError>(b.drop_last()[i] as nat));
            } else {
                assert(t.subrange(2 * i, 2 * i + 2) =~= p);
            }
        }
    }
}

/// An identifier read back from its textual form is the identifier.
pub proof fn id_text_round_trip(name: Seq<char>, b: Seq<u8>)
    requires
        b.len() == 16,
    ensures
        id_text(b).len() == 32,
        id_parse(name, id_text(b)) == Ok::<Seq<u8>, Seq<char>>(b),
{
    lemma_id_text(b);
    vstd::utf8::is_ascii_chars_encode_utf8(id_text(b));
    assert(Seq::new(16, |i: int| pair_value(id_text(b), i)->Ok_0 as u8) =~= b) by {
        assert forall|i: int| 0 <= i < 16 implies pair_value(id_text(b), i)->Ok_0 as u8 == b[i] by {
        }
    }
}

/// Two identifiers with the same text are the same.
pub proof fn id_text_injective(a: Seq<u8>, b: Seq<u8>)
    requires
        a.len() == 16,
        b.len() == 16,
        id_text(a) == id_text(b),
    ensures
        a == b,
{
    id_text_round_trip(Seq::empty(), a);
    id_text_round_trip(Seq::empty(), b);
}

/// Identifies one isolated database instance.
#[derive(Clone, Copy, Debug, Eq, PartialOrd, Ord, Hash)]
pub struct TenantId(pub [u8; 16]);

impl PartialEq for TenantId {
    fn eq(&self, other: &TenantId) -> (r: bool) {
        crate::bytes::same_bytes(self.0.as_slice(), other.0.as_slice())
    }
}

impl vstd::std_specs::cmp::PartialEqSpecImpl for TenantId {
    open spec fn obeys_eq_spec() -> bool {
        true
    }

    open spec fn eq_spec(&self, other: &TenantId) -> bool {
        self.0@ == other.0@
    }
}

impl View for TenantId {
    type V = Seq<u8>;

    /// The sixteen bytes.
    open spec fn view(&self) -> Seq<u8> {
        self.0@
    }
}

impl TenantId {
    /// The all-zero identifier, reserved for "none".
    pub fn zero() -> (r: TenantId)
        ensures
            r@ == Seq::new(16, |i: int| 0u8),
    {
        let r = TenantId([0u8; 16]);
        assert(r@ =~= Seq::new(16, |i: int| 0u8));
        r
    }

    /// Construct from raw bytes.
    pub fn from_bytes(bytes: [u8; 16]) -> (r: TenantId)
        ensures
            r == TenantId(bytes),
            r@ == bytes@,
    {
        TenantId(bytes)
    }

    /// Borrow the underlying bytes.
    pub fn as_bytes(&self) -> (r: &[u8; 16])
        ensures
            r@ == self@,
    {
        &self.0
    }

    /// Whether the two identifiers are the same.
    pub fn same(&self, other: &TenantId) -> (r: bool)
        ensures
            r == (self@ == other@),
            r == (*self == *other),
    {
        let r = crate::bytes::same_bytes(self.0.as_slice(), other.0.as_slice());
        assert(self.0@ =~= other.0@ ==> self.0 == other.0);
        r
    }

    /// 32 lower-case hexadecimal characters.
    pub fn to_string(&self) -> (r: String)
        ensures
            r@ == id_text(self@),
    {
        let mut out = String::new();
        push_id(&mut out, &self.0);
        assert(out@ =~= id_text(self@));
        out
    }

    /// Read the textual form.
    pub fn from_str(s: &str) -> (r: Result<TenantId, Error>)
        ensures
            match id_parse("TenantId"@, s@) {
                Ok(b) => r matches Ok(id) && id@ == b,
                Err(m) => r matches Err(e) && e.reason() == m,
            },
            r matches Ok(id) ==> tenant_id_named(s@) == Some(id),
            r is Err ==> tenant_id_named(s@) is None,
    {
        match read_id("TenantId", s) {
            Ok(b) => {
                let id = TenantId(b);
                proof {
                    lemma_tenant_id_of(id);
                }
                Ok(id)
            },
            Err(e) => Err(e),
        }
    }
}

/// The identifier with the given bytes.
pub open spec fn tenant_id_of(b: Seq<u8>) -> TenantId {
    choose|id: TenantId| id@ == b
}

/// Sixteen bytes in an array.
spec fn sixteen(b: Seq<u8>) -> [u8; 16] {
    [
        b[0],
        b[1],
        b[2],
        b[3],
        b[4],
        b[5],
        b[6],
        b[7],
        b[8],
        b[9],
        b[10],
        b[11],
        b[12],
        b[13],
        b[14],
        b[15],
    ]
}

/// Any sixteen bytes are those of an identifier of either kind.
pub proof fn lemma_any_id(b: Seq<u8>)
    requires
        b.len() == 16,
    ensures
        tenant_id_of(b)@ == b,
        timeline_id_of(b)@ == b,
{
    let a = sixteen(b);
    assert(a@ =~= b);
    assert(TenantId(a)@ == b);
    assert(TimelineId(a)@ == b);
}

/// The identifier that a text writes, if it writes one.
pub open spec fn tenant_id_named(s: Seq<char>) -> Option<TenantId> {
    match id_parse("TenantId"@, s) {
        Ok(b) => Some(tenant_id_of(b)),
        Err(_) => None,
    }
}

/// The bytes tell the identifiers apart.
pub proof fn lemma_tenant_id_of(id: TenantId)
    ensures
        tenant_id_of(id@) == id,
        tenant_id_named(id_text(id@)) == Some(id),
{
    let x = tenant_id_of(id@);
    assert(x@ == id@);
    assert(x.0@ =~= id.0@);
    assert(x.0 == id.0);
    id_text_round_trip("TenantId"@, id@);
}

impl FromStr for TenantId {
    type Err = Error;

    fn from_str(s: &str) -> (r: Result<TenantId, Error>)
        ensures
            match id_parse("TenantId"@, s@) {
                Ok(b) => r matches Ok(id) && id@ == b,
                Err(m) => r matches Err(e) && e.reason() == m,
            },
            r matches Ok(id) ==> tenant_id_named(s@) == Some(id),
            r is Err ==> tenant_id_named(s@) is None,
    {
        TenantId::from_str(s)
    }
}

/// Identifies one branch of a tenant's history.
#[derive(Clone, Copy, Debug, Eq, PartialOrd, Ord, Hash)]
pub struct TimelineId(pub [u8; 16]);

impl PartialEq for TimelineId {
    fn eq(&self, other: &TimelineId) -> (r: bool) {
        crate::bytes::same_bytes(self.0.as_slice(), other.0.as_slice())
    }
}

impl vstd::std_specs::cmp::PartialEqSpecImpl for TimelineId {
    open spec fn obeys_eq_spec() -> bool {
        true
    }

    open spec fn eq_spec(&self, other: &TimelineId) -> bool {
        self.0@ == other.0@
    }
}

impl View for TimelineId {
    type V = Seq<u8>;

    /// The sixteen bytes.
    open spec fn view(&self) -> Seq<u8> {
        self.0@
    }
}

impl TimelineId {
    /// The all-zero identifier, reserved for "none".
    pub fn zero() -> (r: TimelineId)
        ensures
            r@ == Seq::new(16, |i: int| 0u8),
    {
        let r = TimelineId([0u8; 16]);
        assert(r@ =~= Seq::new(16, |i: int| 0u8));
        r
    }

    /// Construct from raw bytes.
    pub fn from_bytes(bytes: [u8; 16]) -> (r: TimelineId)
        ensures
            r == TimelineId(bytes),
            r@ == bytes@,
    {
        TimelineId(bytes)
    }

    /// Borrow the underlying bytes.
    pub fn as_bytes(&self) -> (r: &[u8; 16])
        ensures
            r@ == self@,
    {
        &self.0
    }

    /// Whether the two identifiers are the same.
    pub fn same(&self, other: &TimelineId) -> (r: bool)
        ensures
            r == (self@ == other@),
            r == (*self == *other),
    {
        let r = crate::bytes::same_bytes(self.0.as_slice(), other.0.as_slice());
        assert(self.0@ =~= other.0@ ==> self.0 == other.0);
        r
    }

    /// 32 lower-case hexadecimal characters.
    pub fn to_string(&self) -> (r: String)
        ensures
            r@ == id_text(self@),
    {
        let mut out = String::new();
        push_id(&mut out, &self.0);
        assert(out@ =~= id_text(self@));
        out
    }

    /// Read the textual form.
    pub fn from_str(s: &str) -> (r: Result<TimelineId, Error>)
        ensures
            match id_parse("TimelineId"@, s@) {
                Ok(b) => r matches Ok(id) && id@ == b,
                Err(m) => r matches Err(e) && e.reason() == m,
            },
            r matches Ok(id) ==> timeline_id_named(s@) == Some(id),
            r is Err ==> timeline_id_named(s@) is None,
    {
        match read_id("TimelineId", s) {
            Ok(b) => {
                let id = TimelineId(b);
                proof {
                    lemma_timeline_id_of(id);
                }
                Ok(id)
            },
            Err(e) => Err(e),
        }
    }
}

/// The identifier with the given bytes.
pub open spec fn timeline_id_of(b: Seq<u8>) -> TimelineId {
    choose|id: TimelineId| id@ == b
}

/// The identifier that a text writes, if it writes one.
pub open spec fn timeline_id_named(s: Seq<char>) -> Option<TimelineId> {
    match id_parse("TimelineId"@, s) {
        Ok(b) => Some(timeline_id_of(b)),
        Err(_) => None,
    }
}

/// The bytes tell the identifiers apart.
pub proof fn lemma_timeline_id_of(id: TimelineId)
    ensures
        timeline_id_of(id@) == id,
        timeline_id_named(id_text(id@)) == Some(id),
{
    let x = timeline_id_of(id@);
    assert(x@ == id@);
    assert(x.0@ =~= id.0@);
    assert(x.0 == id.0);
    id_text_round_trip("TimelineId"@, id@);
}

impl FromStr for TimelineId {
    type Err = Error;

    fn from_str(s: &str) -> (r: Result<TimelineId, Error>)
        ensures
            match id_parse("TimelineId"@, s@) {
                Ok(b) => r matches Ok(id) && id@ == b,
                Err(m) => r matches Err(e) && e.reason() == m,
            },
            r matches Ok(id) ==> timeline_id_named(s@) == Some(id),
            r is Err ==> timeline_id_named(s@) is None,
    {
        TimelineId::from_str(s)
    }
}

/// A text of another length than 32 is no id, and the length is told.
pub proof fn ids_have_32_characters(name: Seq<char>, s: Seq<char>)
    requires
        encode_utf8(s).len() != 32,
    ensures
        id_parse(name, s) == Err::<Seq<u8>, Seq<char>>(
            name + " must be 32 hex chars, got "@ + decimal(encode_utf8(s).len()),
        ),
{
}

/// Each byte of an id is two hexadecimal digits of its text, the higher one first and in
/// either case; a text with something else in such a place is no id.
pub proof fn ids_are_read_digit_by_digit(name: Seq<char>, s: Seq<char>, i: int)
    requires
        s.len() == 32,
        encode_utf8(s).len() == 32,
        0 <= i < 16,
    ensures
        match (digit_value(s[2 * i], 16), digit_value(s[2 * i + 1], 16)) {
            (Some(a), Some(b)) => id_parse(name, s) matches Ok(id) ==> id.len() == 16 && id[i] == 16
                * a + b,
            (_, None) => id_parse(name, s) == Err::<Seq<u8>, Seq<char>>(
                "invalid hex in "@ + name + ": "@ + int_error_text(IntError::InvalidDigit),
            ),
            (None, _) => true,
        },
{
    let p = s.subrange(2 * i, 2 * i + 2);
    let q = p.drop_last();
    assert(q.drop_last() =~= Seq::empty());
    assert(parse_digits(q.drop_last(), 16, 255) == Ok::<nat, IntError>(0));
    assert(q.last() == s[2 * i] && p.last() == s[2 * i + 1]);
    let one = p.skip(1);
    assert(one.drop_last() =~= Seq::empty());
    assert(parse_digits(one.drop_last(), 16, 255) == Ok::<nat, IntError>(0));
    assert(one.last() == s[2 * i + 1]);
    assert(digit_value('+', 16) is None);
    let r = pair_value(s, i);
    if digit_value(s[2 * i + 1], 16) is None {
        assert(r is Err);
        assert(!(forall|j: int| 0 <= j < 16 ==> (#[trigger] pair_value(s, j)) is Ok));
    } else if digit_value(s[2 * i], 16) is Some {
        let a = digit_value(s[2 * i], 16)->0;
        let b = digit_value(s[2 * i + 1], 16)->0;
        assert(p[0] == s[2 * i] && p[0] != '+');
        assert(parse_digits(q, 16, 255) == Ok::<nat, IntError>(a));
        assert(parse_digits(p, 16, 255) == Ok::<nat, IntError>(a * 16 + b));
        assert(r == Ok::<nat, IntError>(a * 16 + b));
    }
}

} // verus!
