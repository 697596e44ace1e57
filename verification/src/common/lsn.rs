//! Log Sequence Number: the 64-bit position of a byte in the WAL stream.
//!
//! The textual form is PostgreSQL's: two 32-bit halves in upper-case hexadecimal
//! with a slash between them, such as `16/B374D848`.

use std::str::FromStr;

use vstd::prelude::*;

use crate::common::error::Error;
use crate::text::{
    chars_of, copy_str, digits, digits_round_trip, int_error_message, int_error_text, is_digit_char,
    lemma_position, lemma_position_at, parse_uint, push_digits, read_uint, split_once,
    split_once_at, string_of, trim, trim_end, trim_start, trimmed,
};

verus! {

/// A WAL position. Monotonic within a timeline; 0 is the canonical invalid one.
#[derive(Debug, Clone, Copy, PartialEq, Eq, Structural, PartialOrd, Ord, Hash)]
pub struct Lsn(pub u64);

impl Default for Lsn {
    fn default() -> (r: Lsn)
        ensures
            r == Lsn(0),
    {
        Lsn(0)
    }
}

impl From<u64> for Lsn {
    fn from(v: u64) -> (r: Lsn) {
        Lsn(v)
    }
}

impl vstd::std_specs::convert::FromSpecImpl<u64> for Lsn {
    open spec fn obeys_from_spec() -> bool {
        true
    }

    open spec fn from_spec(v: u64) -> Lsn {
        Lsn(v)
    }
}

/// The textual form of a position.
pub open spec fn lsn_text(lsn: Lsn) -> Seq<char> {
    digits(lsn.0 as nat / 0x1_0000_0000, 16, true) + seq!['/'] + digits(
        lsn.0 as nat % 0x1_0000_0000,
        16,
        true,
    )
}

/// The position that a text names, or why it names none.
pub open spec fn lsn_parse(s: Seq<char>) -> Result<Lsn, Seq<char>> {
    match split_once(s, '/') {
        None => Err("LSN '"@ + s + "' is missing the '/' separator"@),
        Some((hi, lo)) => match parse_uint(trim(hi), 16, u32::MAX as nat) {
            Err(e) => Err("invalid LSN high half '"@ + hi + "': "@ + int_error_text(e)),
            Ok(h) => match parse_uint(trim(lo), 16, u32::MAX as nat) {
                Err(e) => Err("invalid LSN low half '"@ + lo + "': "@ + int_error_text(e)),
                Ok(l) => Ok(Lsn((h * 0x1_0000_0000 + l) as u64)),
            },
        },
    }
}

impl Lsn {
    /// The invalid position, PostgreSQL's `InvalidXLogRecPtr`.
    pub fn invalid() -> (r: Lsn)
        ensures
            r == Lsn(0),
    {
        Lsn(0)
    }

    /// Raw 64-bit value.
    pub fn raw(self) -> (r: u64)
        ensures
            r == self.0,
    {
        self.0
    }

    /// Whether this is a position other than the invalid one.
    pub fn is_valid(self) -> (r: bool)
        ensures
            r == (self.0 != 0),
    {
        self.0 != 0
    }

    /// The start of the block of `block_size` bytes that holds this position.
    pub fn align_down(self, block_size: u64) -> (r: Lsn)
        requires
            block_size > 0,
        ensures
            r.0 as int == (self.0 as int / block_size as int) * block_size,
            r.0 <= self.0 < r.0 + block_size,
    {
        proof {
            vstd::arithmetic::div_mod::lemma_fundamental_div_mod(self.0 as int, block_size as int);
            vstd::arithmetic::div_mod::lemma_mod_bound(self.0 as int, block_size as int);
            assert(block_size * (self.0 as int / block_size as int) == (self.0 as int
                / block_size as int) * block_size) by (nonlinear_arith);
            assert((self.0 as int / block_size as int) * block_size >= 0) by (nonlinear_arith)
                requires
                    self.0 as int >= 0,
                    block_size > 0,
            ;
        }
        Lsn(self.0 - (self.0 % block_size))
    }

    /// Saturating addition of a byte offset, useful when advancing a cursor: the
    /// position `bytes` further on, or the last one where there is none so far.
    pub fn checked_add(self, bytes: u64) -> (r: Option<Lsn>)
        ensures
            r == Some(
                Lsn(
                    if self.0 + bytes <= u64::MAX {
                        (self.0 + bytes) as u64
                    } else {
                        u64::MAX
                    },
                ),
            ),
    {
        match self.0.checked_add(bytes) {
            Some(v) => Some(Lsn(v)),
            None => Some(Lsn(u64::MAX)),
        }
    }

    /// `HIGH/LOW` in upper-case hexadecimal.
    pub fn to_string(&self) -> (r: String)
        ensures
            r@ == lsn_text(*self),
    {
        let mut out = String::new();
        push_digits(&mut out, self.0 / 0x1_0000_0000, 16, true);
        out.push('/');
        push_digits(&mut out, self.0 % 0x1_0000_0000, 16, true);
        assert(out@ =~= lsn_text(*self));
        out
    }

    /// Read the `HIGH/LOW` form.
    pub fn from_str(s: &str) -> (r: Result<Lsn, Error>)
        ensures
            match lsn_parse(s@) {
                Ok(l) => r == Ok::<Lsn, Error>(l),
                Err(m) => r matches Err(e) && e.reason() == m,
            },
    {
        let chars = chars_of(s);
        let (hi, lo) = match split_once_at(chars.as_slice(), '/') {
            Some(halves) => halves,
            None => {
                let mut m = copy_str("LSN '");
                m.push_str(s);
                m.push_str("' is missing the '/' separator");
                return Err(Error::parse(m));
            },
        };
        let h: u64 = match read_uint(trimmed(hi), 16, 0xFFFF_FFFF) {
            Ok(h) => h,
            Err(e) => {
                let mut m = copy_str("invalid LSN high half '");
                m.push_str(string_of(hi).as_str());
                m.push_str("': ");
                m.push_str(int_error_message(e));
                return Err(Error::parse(m));
            },
        };
        let l: u64 = match read_uint(trimmed(lo), 16, 0xFFFF_FFFF) {
            Ok(l) => l,
            Err(e) => {
                let mut m = copy_str("invalid LSN low half '");
                m.push_str(string_of(lo).as_str());
                m.push_str("': ");
                m.push_str(int_error_message(e));
                return Err(Error::parse(m));
            },
        };
        Ok(Lsn(h * 0x1_0000_0000 + l))
    }
}

impl FromStr for Lsn {
    type Err = Error;

    fn from_str(s: &str) -> (r: Result<Lsn, Error>)
        ensures
            match lsn_parse(s@) {
                Ok(l) => r == Ok::<Lsn, Error>(l),
                Err(m) => r matches Err(e) && e.reason() == m,
            },
    {
        Lsn::from_str(s)
    }
}

/// A text of hexadecimal digits has nothing to trim.
proof fn lemma_trim_digits(s: Seq<char>)
    requires
        s.len() > 0,
        forall|i: int| 0 <= i < s.len() ==> is_digit_char(#[trigger] s[i]),
    ensures
        trim(s) == s,
{
    assert(is_digit_char(s[0]) && is_digit_char(s[s.len() - 1]));
    assert(trim_start(s) == s);
    assert(trim_end(s) == s);
}

/// A position read back from its textual form is the position.
pub proof fn lsn_text_round_trip(lsn: Lsn)
    ensures
        lsn_parse(lsn_text(lsn)) == Ok::<Lsn, Seq<char>>(lsn),
{
    let hi = lsn.0 as nat / 0x1_0000_0000;
    let lo = lsn.0 as nat % 0x1_0000_0000;
    let h = digits(hi, 16, true);
    let l = digits(lo, 16, true);
    let t = lsn_text(lsn);
    digits_round_trip(hi, 16, true, u32::MAX as nat);
    digits_round_trip(lo, 16, true, u32::MAX as nat);
    assert forall|j: int| 0 <= j < h.len() implies t[j] != '/' by {
        assert(is_digit_char(h[j]));
    }
    lemma_position_at(t, '/', h.len() as int);
    assert(t.take(h.len() as int) =~= h);
    assert(t.skip(h.len() as int + 1) =~= l);
    lemma_trim_digits(h);
    lemma_trim_digits(l);
}

/// The halves of a text are the upper and the lower 32 bits of the position, in either
/// case of hexadecimal digits; the textual form has the upper case.
pub proof fn halves_make_the_position(hi: u32, lo: u32, upper: bool)
    ensures
        ({
            let t = digits(hi as nat, 16, upper) + seq!['/'] + digits(lo as nat, 16, upper);
            let lsn = Lsn((hi * 0x1_0000_0000 + lo) as u64);
            &&& lsn_parse(t) == Ok::<Lsn, Seq<char>>(lsn)
            &&& upper ==> lsn_text(lsn) == t
        }),
{
    let h = digits(hi as nat, 16, upper);
    let l = digits(lo as nat, 16, upper);
    let t = h + seq!['/'] + l;
    let lsn = Lsn((hi * 0x1_0000_0000 + lo) as u64);
    assert(lsn.0 as nat / 0x1_0000_0000 == hi as nat && lsn.0 as nat % 0x1_0000_0000 == lo as nat);
    digits_round_trip(hi as nat, 16, upper, u32::MAX as nat);
    digits_round_trip(lo as nat, 16, upper, u32::MAX as nat);
    assert forall|j: int| 0 <= j < h.len() implies t[j] != '/' by {
        assert(is_digit_char(h[j]));
    }
    lemma_position_at(t, '/', h.len() as int);
    assert(t.take(h.len() as int) =~= h);
    assert(t.skip(h.len() as int + 1) =~= l);
    lemma_trim_digits(h);
    lemma_trim_digits(l);
}

/// A text without a slash names no position.
pub proof fn positions_have_a_slash(s: Seq<char>)
    requires
        forall|i: int| 0 <= i < s.len() ==> #[trigger] s[i] != '/',
    ensures
        lsn_parse(s) is Err,
{
    lemma_position(s, '/');
}

} // verus!
