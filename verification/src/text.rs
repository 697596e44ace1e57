//! Text as sequences of characters: numbers, trimming, splitting, searching.

use vstd::prelude::*;

verus! {

/// `String::push`: the character is appended to the text.
pub assume_specification[ String::push ](s: &mut String, c: char)
    ensures
        final(s)@ == old(s)@.push(c),
;

/// `String::push_str`: the text is appended to the text.
pub assume_specification[ String::push_str ](s: &mut String, other: &str)
    ensures
        final(s)@ == old(s)@ + other@,
;

/// What `String::from_utf8_lossy` makes of a byte string.
pub uninterp spec fn lossy_text(bytes: Seq<u8>) -> Seq<char>;

/// The text that the bytes encode, with replacements where they encode none.
pub open spec fn read_text(bytes: Seq<u8>) -> Seq<char> {
    if vstd::utf8::valid_utf8(bytes) {
        vstd::utf8::decode_utf8(bytes)
    } else {
        lossy_text(bytes)
    }
}

/// `String::from_utf8_lossy`: the text that the bytes encode. Where they are not
/// valid UTF-8, replacement characters stand for what is not; how many, and
/// where, is left to the name.
#[verifier::external_body]
pub(crate) fn text_lossy(bytes: &[u8]) -> (r: String)
    ensures
        vstd::utf8::valid_utf8(bytes@) ==> r@ == vstd::utf8::decode_utf8(bytes@),
        !vstd::utf8::valid_utf8(bytes@) ==> r@ == lossy_text(bytes@),
{
    String::from_utf8_lossy(bytes).into_owned()
}

/// A text read back from its own bytes is the text.
pub proof fn text_round_trip(t: Seq<char>)
    ensures
        read_text(vstd::utf8::encode_utf8(t)) == t,
{
    vstd::utf8::encode_utf8_valid_utf8(t);
    vstd::utf8::encode_utf8_decode_utf8(t);
}

/// The characters of `s`.
pub fn chars_of(s: &str) -> (out: Vec<char>)
    ensures
        out@ == s@,
{
    broadcast use vstd::string::axiom_spec_iter;

    let mut out: Vec<char> = Vec::new();
    for c in iter: s.chars()
        invariant
            out@ == iter.seq().take(iter.index() as int),
            iter.seq() == s@,
    {
        out.push(c);
        assert(iter.seq().take(iter.index() + 1) =~= iter.seq().take(iter.index() as int).push(c));
    }
    assert(out@ =~= s@);
    out
}

/// The text made of `chars`.
pub fn string_of(chars: &[char]) -> (out: String)
    ensures
        out@ == chars@,
{
    let mut out = String::new();
    let mut i: usize = 0;
    while i < chars.len()
        invariant
            i <= chars@.len(),
            out@ == chars@.take(i as int),
        decreases chars@.len() - i,
    {
        out.push(chars[i]);
        i += 1;
        assert(chars@.take(i as int) =~= chars@.take(i - 1).push(chars@[i - 1]));
    }
    assert(chars@.take(i as int) =~= chars@);
    out
}

/// A copy of the text.
pub fn copy_str(s: &str) -> (out: String)
    ensures
        out@ == s@,
{
    let mut out = String::new();
    out.push_str(s);
    assert(out@ =~= s@);
    out
}

/// Whether the two texts are the same.
pub fn same_text(a: &str, b: &str) -> (r: bool)
    ensures
        r == (a@ == b@),
{
    let r = crate::bytes::same_bytes(a.as_bytes(), b.as_bytes());
    proof {
        vstd::utf8::encode_utf8_decode_utf8(a@);
        vstd::utf8::encode_utf8_decode_utf8(b@);
    }
    r
}

/// Whether the two character strings are the same.
pub fn same_chars(a: &[char], b: &[char]) -> (r: bool)
    ensures
        r == (a@ == b@),
{
    if a.len() != b.len() {
        return false;
    }
    let mut i: usize = 0;
    while i < a.len()
        invariant
            i <= a@.len(),
            a@.len() == b@.len(),
            forall|j: int| 0 <= j < i ==> a@[j] == b@[j],
        decreases a@.len() - i,
    {
        if a[i] != b[i] {
            return false;
        }
        i += 1;
    }
    assert(a@ =~= b@);
    true
}


// ---------------------------------------------------------------------------
// Numbers
// ---------------------------------------------------------------------------

/// The character for the digit `d`.
pub open spec fn digit_char(d: nat, upper: bool) -> char {
    if d < 10 {
        (48 + d) as u8 as char
    } else if upper {
        (55 + d) as u8 as char
    } else {
        (87 + d) as u8 as char
    }
}

/// `n` written in `radix`, without leading zeros.
pub open spec fn digits(n: nat, radix: nat, upper: bool) -> Seq<char>
    decreases n,
    via digits_decreases
{
    if radix < 2 || n < radix {
        seq![digit_char(n, upper)]
    } else {
        digits(n / radix, radix, upper).push(digit_char(n % radix, upper))
    }
}

#[via_fn]
proof fn digits_decreases(n: nat, radix: nat, upper: bool) {
    if 2 <= radix <= n {
        assert(n / radix < n) by (nonlinear_arith)
            requires
                2 <= radix <= n,
        ;
    }
}

/// `n` in decimal.
pub open spec fn decimal(n: nat) -> Seq<char> {
    digits(n, 10, false)
}

/// The `width` low digits of `n` in lower-case hexadecimal.
pub open spec fn hex_fixed(n: nat, width: nat) -> Seq<char>
    decreases width,
{
    if width == 0 {
        Seq::empty()
    } else {
        hex_fixed(n / 16, (width - 1) as nat).push(digit_char(n % 16, false))
    }
}

/// Why a text is not a number.
#[derive(Clone, Copy, Debug, PartialEq, Eq, Structural)]
pub enum IntError {
    /// There is nothing to read.
    Empty,
    /// A character is no digit.
    InvalidDigit,
    /// The number exceeds the largest one wanted.
    TooLarge,
}

/// What is said of each reason.
pub open spec fn int_error_text(e: IntError) -> Seq<char> {
    match e {
        IntError::Empty => "cannot parse integer from empty string"@,
        IntError::InvalidDigit => "invalid digit found in string"@,
        IntError::TooLarge => "number too large to fit in target type"@,
    }
}

/// The digit that `c` stands for in `radix`.
pub open spec fn digit_value(c: char, radix: nat) -> Option<nat> {
    let n = c as u32 as nat;
    let d: nat = if 48 <= n <= 57 {
        (n - 48) as nat
    } else if 65 <= n <= 90 {
        (n - 55) as nat
    } else if 97 <= n <= 122 {
        (n - 87) as nat
    } else {
        99
    };
    if d < radix {
        Some(d)
    } else {
        None
    }
}

/// The number that a run of digits writes. The first character at which the run
/// stops being a number of at most `max` decides the error.
pub open spec fn parse_digits(s: Seq<char>, radix: nat, max: nat) -> Result<nat, IntError>
    decreases s.len(),
{
    if s.len() == 0 {
        Ok(0)
    } else {
        match parse_digits(s.drop_last(), radix, max) {
            Err(e) => Err(e),
            Ok(v) => match digit_value(s.last(), radix) {
                None => Err(IntError::InvalidDigit),
                Some(d) => if v * radix + d > max {
                    Err(IntError::TooLarge)
                } else {
                    Ok(v * radix + d)
                },
            },
        }
    }
}

/// The unsigned number that `s` writes: digits, with one `+` allowed in front.
pub open spec fn parse_uint(s: Seq<char>, radix: nat, max: nat) -> Result<nat, IntError> {
    if s.len() == 0 {
        Err(IntError::Empty)
    } else if s[0] == '+' && s.len() > 1 {
        parse_digits(s.skip(1), radix, max)
    } else {
        parse_digits(s, radix, max)
    }
}

fn digit_char_of(d: u64, upper: bool) -> (c: char)
    requires
        d < 16,
    ensures
        c == digit_char(d as nat, upper),
{
    let b: u8 = d as u8;
    if b < 10 {
        (48 + b) as char
    } else if upper {
        (55 + b) as char
    } else {
        (87 + b) as char
    }
}

/// Append `n` in `radix`.
pub fn push_digits(out: &mut String, n: u64, radix: u64, upper: bool)
    requires
        2 <= radix <= 16,
    ensures
        final(out)@ == old(out)@ + digits(n as nat, radix as nat, upper),
    decreases n,
{
    let ghost before = out@;
    if n >= radix {
        assert(n / radix < n) by (nonlinear_arith)
            requires
                radix >= 2,
                n >= radix,
        ;
        push_digits(out, n / radix, radix, upper);
    }
    let d: u64 = n % radix;
    proof {
        if n < radix {
            vstd::arithmetic::div_mod::lemma_small_mod(n as nat, radix as nat);
        }
    }
    out.push(digit_char_of(d, upper));
    assert(out@ =~= before + digits(n as nat, radix as nat, upper));
}

/// Append `n` in decimal.
pub fn push_decimal(out: &mut String, n: u64)
    ensures
        final(out)@ == old(out)@ + decimal(n as nat),
{
    push_digits(out, n, 10, false);
}

/// A signed number in decimal.
pub open spec fn signed_decimal(n: int) -> Seq<char> {
    if n < 0 {
        seq!['-'] + decimal((0 - n) as nat)
    } else {
        decimal(n as nat)
    }
}

/// Append a signed number in decimal.
pub fn push_signed(out: &mut String, n: i64)
    ensures
        final(out)@ == old(out)@ + signed_decimal(n as int),
{
    if n < 0 {
        out.push('-');
        let m: u64 = (0 - n as i128) as u64;
        push_decimal(out, m);
        assert(out@ =~= old(out)@ + signed_decimal(n as int));
    } else {
        push_decimal(out, n as u64);
    }
}

/// Append the `width` low hexadecimal digits of `n`.
pub fn push_hex_fixed(out: &mut String, n: u64, width: usize)
    ensures
        final(out)@ == old(out)@ + hex_fixed(n as nat, width as nat),
    decreases width,
{
    let ghost before = out@;
    if width > 0 {
        push_hex_fixed(out, n / 16, width - 1);
        out.push(digit_char_of(n % 16, false));
    }
    assert(out@ =~= before + hex_fixed(n as nat, width as nat));
}

/// The sentence for `e`.
pub fn int_error_message(e: IntError) -> (r: &'static str)
    ensures
        r@ == int_error_text(e),
{
    match e {
        IntError::Empty => "cannot parse integer from empty string",
        IntError::InvalidDigit => "invalid digit found in string",
        IntError::TooLarge => "number too large to fit in target type",
    }
}

fn digit_value_of(c: char, radix: u64) -> (r: Option<u64>)
    requires
        radix <= 36,
    ensures
        r matches Some(d) ==> digit_value(c, radix as nat) == Some(d as nat) && d < radix,
        r is None ==> digit_value(c, radix as nat) is None,
{
    let n: u32 = c as u32;
    let d: u32 = if 48 <= n && n <= 57 {
        n - 48
    } else if 65 <= n && n <= 90 {
        n - 55
    } else if 97 <= n && n <= 122 {
        n - 87
    } else {
        99
    };
    if (d as u64) < radix {
        Some(d as u64)
    } else {
        None
    }
}

pub open spec fn to_nat(r: Result<u64, IntError>) -> Result<nat, IntError> {
    match r {
        Ok(v) => Ok(v as nat),
        Err(e) => Err(e),
    }
}

proof fn lemma_parse_prefix_error(s: Seq<char>, k: int, radix: nat, max: nat)
    requires
        0 <= k <= s.len(),
        parse_digits(s.take(k), radix, max) is Err,
    ensures
        parse_digits(s, radix, max) == parse_digits(s.take(k), radix, max),
    decreases s.len() - k,
{
    if k < s.len() {
        assert(s.take(k + 1).drop_last() =~= s.take(k));
        lemma_parse_prefix_error(s, k + 1, radix, max);
    } else {
        assert(s.take(k) =~= s);
    }
}

fn digits_from(s: &[char], from: usize, radix: u64, max: u64) -> (r: Result<u64, IntError>)
    requires
        from <= s@.len(),
        2 <= radix <= 36,
    ensures
        to_nat(r) == parse_digits(s@.skip(from as int), radix as nat, max as nat),
{
    let mut v: u64 = 0;
    let mut i: usize = from;
    let ghost t = s@.skip(from as int);
    assert(t.take(0) =~= Seq::<char>::empty());
    while i < s.len()
        invariant
            from <= i <= s@.len(),
            t == s@.skip(from as int),
            2 <= radix <= 36,
            v <= max,
            parse_digits(t.take(i - from), radix as nat, max as nat) == Ok::<nat, IntError>(
                v as nat,
            ),
        decreases s@.len() - i,
    {
        assert(t.take(i - from + 1).drop_last() =~= t.take(i - from));
        assert(t.take(i - from + 1).last() == s@[i as int]);
        match digit_value_of(s[i], radix) {
            None => {
                proof {
                    lemma_parse_prefix_error(t, i - from + 1, radix as nat, max as nat);
                }
                return Err(IntError::InvalidDigit);
            },
            Some(d) => {
                assert(v * radix <= 0xffff_ffff_ffff_ffff * 36) by (nonlinear_arith)
                    requires
                        v <= 0xffff_ffff_ffff_ffff,
                        radix <= 36,
                ;
                let wide: u128 = v as u128 * radix as u128;
                let sum: u128 = wide + d as u128;
                if sum > max as u128 {
                    proof {
                        lemma_parse_prefix_error(t, i - from + 1, radix as nat, max as nat);
                    }
                    return Err(IntError::TooLarge);
                }
                v = sum as u64;
            },
        }
        i += 1;
    }
    assert(t.take(i - from) =~= t);
    Ok(v)
}

/// The unsigned number that `s` writes in `radix`, at most `max`.
pub fn read_uint(s: &[char], radix: u64, max: u64) -> (r: Result<u64, IntError>)
    requires
        2 <= radix <= 36,
    ensures
        to_nat(r) == parse_uint(s@, radix as nat, max as nat),
        r matches Ok(v) ==> v <= max,
{
    if s.len() == 0 {
        return Err(IntError::Empty);
    }
    proof {
        lemma_parse_bound(s@, radix as nat, max as nat);
        lemma_parse_bound(s@.skip(1), radix as nat, max as nat);
        assert(s@.skip(0) =~= s@);
    }
    if s[0] == '+' && s.len() > 1 {
        digits_from(s, 1, radix, max)
    } else {
        digits_from(s, 0, radix, max)
    }
}

proof fn lemma_parse_bound(s: Seq<char>, radix: nat, max: nat)
    ensures
        parse_digits(s, radix, max) matches Ok(v) ==> v <= max,
    decreases s.len(),
{
    if s.len() > 0 {
        lemma_parse_bound(s.drop_last(), radix, max);
    }
}

/// A number read back from its own digits is the number.
pub proof fn digits_round_trip(n: nat, radix: nat, upper: bool, max: nat)
    requires
        2 <= radix <= 16,
        n <= max,
    ensures
        digits(n, radix, upper).len() > 0,
        digits(n, radix, upper)[0] != '+',
        parse_digits(digits(n, radix, upper), radix, max) == Ok::<nat, IntError>(n),
        parse_uint(digits(n, radix, upper), radix, max) == Ok::<nat, IntError>(n),
        forall|i: int|
            0 <= i < digits(n, radix, upper).len() ==> is_digit_char(
                #[trigger] digits(n, radix, upper)[i],
            ),
    decreases n,
{
    let t = digits(n, radix, upper);
    if n >= radix {
        assert(n / radix < n) by (nonlinear_arith)
            requires
                radix >= 2,
                n >= radix,
        ;
        assert(n == (n / radix) * radix + n % radix) by {
            vstd::arithmetic::div_mod::lemma_fundamental_div_mod(n as int, radix as int);
            assert(radix * (n / radix) == (n / radix) * radix) by (nonlinear_arith);
        }
        digits_round_trip(n / radix, radix, upper, max);
        assert(t.drop_last() =~= digits(n / radix, radix, upper));
    } else {
        assert(t.drop_last() =~= Seq::<char>::empty());
        assert(parse_digits(t.drop_last(), radix, max) == Ok::<nat, IntError>(0));
        assert(0 * radix == 0) by (nonlinear_arith);
    }
}

/// A decimal digit or a letter up to `F`.
pub open spec fn is_digit_char(c: char) -> bool {
    let n = c as u32;
    48 <= n <= 57 || 65 <= n <= 70 || 97 <= n <= 102
}


// ---------------------------------------------------------------------------
// Blanks, words and separators
// ---------------------------------------------------------------------------

/// Unicode white space.
pub open spec fn is_space(c: char) -> bool {
    let n = c as u32;
    9 <= n <= 13 || n == 0x20 || n == 0x85 || n == 0xA0 || n == 0x1680 || 0x2000 <= n <= 0x200A
        || n == 0x2028 || n == 0x2029 || n == 0x202F || n == 0x205F || n == 0x3000
}

/// `s` without the white space it starts with.
pub open spec fn trim_start(s: Seq<char>) -> Seq<char>
    decreases s.len(),
{
    if s.len() > 0 && is_space(s[0]) {
        trim_start(s.skip(1))
    } else {
        s
    }
}

/// `s` without the white space it ends with.
pub open spec fn trim_end(s: Seq<char>) -> Seq<char>
    decreases s.len(),
{
    if s.len() > 0 && is_space(s.last()) {
        trim_end(s.drop_last())
    } else {
        s
    }
}

/// `s` without the white space around it.
pub open spec fn trim(s: Seq<char>) -> Seq<char> {
    trim_end(trim_start(s))
}

/// The maximal runs of characters that are not white space.
pub open spec fn words(s: Seq<char>) -> Seq<Seq<char>>
    decreases s.len(),
{
    if s.len() == 0 {
        Seq::empty()
    } else {
        let rest = words(s.drop_last());
        if is_space(s.last()) {
            rest
        } else if s.len() == 1 || is_space(s[s.len() - 2]) {
            rest.push(seq![s.last()])
        } else {
            rest.drop_last().push(rest.last().push(s.last()))
        }
    }
}

/// The pieces of `s` between the occurrences of `sep`.
pub open spec fn split_on(s: Seq<char>, sep: char) -> Seq<Seq<char>>
    decreases s.len(),
{
    if s.len() == 0 {
        seq![Seq::empty()]
    } else {
        let rest = split_on(s.drop_last(), sep);
        if s.last() == sep {
            rest.push(Seq::empty())
        } else {
            rest.drop_last().push(rest.last().push(s.last()))
        }
    }
}

/// How many characters stand before the first `c` (all of them if there is none).
pub open spec fn position(s: Seq<char>, c: char) -> int
    decreases s.len(),
{
    if s.len() == 0 || s[0] == c {
        0
    } else {
        1 + position(s.skip(1), c)
    }
}

/// What stands before and after the first `c`, if there is one.
pub open spec fn split_once(s: Seq<char>, c: char) -> Option<(Seq<char>, Seq<char>)> {
    let p = position(s, c);
    if p < s.len() {
        Some((s.take(p), s.skip(p + 1)))
    } else {
        None
    }
}

/// Whether `s` starts with `p`.
pub open spec fn starts_with(s: Seq<char>, p: Seq<char>) -> bool {
    p.len() <= s.len() && s.take(p.len() as int) == p
}

/// The texts of a list.
pub open spec fn texts(v: Seq<String>) -> Seq<Seq<char>> {
    Seq::new(v.len(), |i: int| v[i]@)
}

pub fn is_space_char(c: char) -> (r: bool)
    ensures
        r == is_space(c),
{
    let n: u32 = c as u32;
    (9 <= n && n <= 13) || n == 0x20 || n == 0x85 || n == 0xA0 || n == 0x1680 || (0x2000 <= n && n
        <= 0x200A) || n == 0x2028 || n == 0x2029 || n == 0x202F || n == 0x205F || n == 0x3000
}

/// `s` without the white space around it.
pub fn trimmed(s: &[char]) -> (r: &[char])
    ensures
        r@ == trim(s@),
{
    let mut a: usize = 0;
    assert(s@.skip(0) =~= s@);
    while a < s.len() && is_space_char(s[a])
        invariant
            a <= s@.len(),
            trim_start(s@) == trim_start(s@.skip(a as int)),
        decreases s@.len() - a,
    {
        assert(s@.skip(a as int).skip(1) =~= s@.skip(a + 1));
        a += 1;
    }
    let ghost t = s@.skip(a as int);
    assert(trim_start(s@) == t);
    let mut b: usize = s.len();
    assert(s@.subrange(a as int, b as int) =~= t);
    while a < b && is_space_char(s[b - 1])
        invariant
            a <= b <= s@.len(),
            trim_end(t) == trim_end(s@.subrange(a as int, b as int)),
        decreases b,
    {
        assert(s@.subrange(a as int, b as int).drop_last() =~= s@.subrange(a as int, b - 1));
        b -= 1;
    }
    vstd::slice::slice_subrange(s, a, b)
}

/// The maximal runs of characters that are not white space.
pub fn words_of(s: &[char]) -> (out: Vec<String>)
    ensures
        texts(out@) == words(s@),
{
    let mut out: Vec<String> = Vec::new();
    let mut i: usize = 0;
    let mut from: usize = 0;
    assert(s@.take(0) =~= Seq::<char>::empty());
    assert(texts(out@) =~= words(s@.take(0)));
    while i < s.len()
        invariant
            from <= i <= s@.len(),
            from < i ==> !is_space(s@[i - 1]),
            from == i ==> i == 0 || is_space(s@[i - 1]),
            words(s@.take(i as int)) == texts(out@) + (if from < i {
                seq![s@.subrange(from as int, i as int)]
            } else {
                Seq::<Seq<char>>::empty()
            }),
        decreases s@.len() - i,
    {
        let ghost before = words(s@.take(i as int));
        let ghost t = s@.take(i + 1);
        assert(t.drop_last() =~= s@.take(i as int));
        assert(t.last() == s@[i as int]);
        assert(i >= 1 ==> t[t.len() - 2] == s@[i - 1]);
        if is_space_char(s[i]) {
            if from < i {
                let ghost held = texts(out@);
                out.push(string_of(vstd::slice::slice_subrange(s, from, i)));
                assert(texts(out@) =~= held.push(s@.subrange(from as int, i as int)));
            }
            from = i + 1;
            assert(words(t) =~= texts(out@) + Seq::<Seq<char>>::empty());
        } else {
            if from < i {
                assert(before.drop_last() =~= texts(out@));
                assert(s@.subrange(from as int, i + 1) =~= s@.subrange(from as int, i as int).push(
                    s@[i as int],
                ));
            } else {
                assert(s@.subrange(from as int, i + 1) =~= seq![s@[i as int]]);
            }
            assert(words(t) =~= texts(out@) + seq![s@.subrange(from as int, i + 1)]);
        }
        i += 1;
    }
    assert(s@.take(i as int) =~= s@);
    let ghost held = texts(out@);
    if from < i {
        out.push(string_of(vstd::slice::slice_subrange(s, from, i)));
        assert(texts(out@) =~= held.push(s@.subrange(from as int, i as int)));
    }
    assert(texts(out@) =~= words(s@));
    out
}

/// The pieces of `s` between the occurrences of `sep`.
pub fn pieces_of(s: &[char], sep: char) -> (out: Vec<String>)
    ensures
        texts(out@) == split_on(s@, sep),
        out@.len() >= 1,
{
    let mut out: Vec<String> = Vec::new();
    let mut i: usize = 0;
    let mut from: usize = 0;
    assert(s@.take(0) =~= Seq::<char>::empty());
    assert(split_on(s@.take(0), sep) =~= texts(out@).push(s@.subrange(0, 0)));
    while i < s.len()
        invariant
            from <= i <= s@.len(),
            split_on(s@.take(i as int), sep) == texts(out@).push(
                s@.subrange(from as int, i as int),
            ),
        decreases s@.len() - i,
    {
        let ghost t = s@.take(i + 1);
        let ghost held = texts(out@);
        assert(t.drop_last() =~= s@.take(i as int));
        assert(t.last() == s@[i as int]);
        if s[i] == sep {
            out.push(string_of(vstd::slice::slice_subrange(s, from, i)));
            assert(texts(out@) =~= held.push(s@.subrange(from as int, i as int)));
            from = i + 1;
            assert(s@.subrange(from as int, i + 1) =~= Seq::<char>::empty());
        } else {
            assert(held.push(s@.subrange(from as int, i as int)).drop_last() =~= held);
            assert(s@.subrange(from as int, i + 1) =~= s@.subrange(from as int, i as int).push(
                s@[i as int],
            ));
        }
        i += 1;
    }
    assert(s@.take(i as int) =~= s@);
    let ghost held = texts(out@);
    out.push(string_of(vstd::slice::slice_subrange(s, from, i)));
    assert(texts(out@) =~= held.push(s@.subrange(from as int, i as int)));
    out
}

pub proof fn lemma_position(s: Seq<char>, c: char)
    ensures
        0 <= position(s, c) <= s.len(),
        position(s, c) < s.len() ==> s[position(s, c)] == c,
        forall|j: int| 0 <= j < position(s, c) ==> s[j] != c,
    decreases s.len(),
{
    if s.len() > 0 && s[0] != c {
        lemma_position(s.skip(1), c);
        assert forall|j: int| 0 <= j < position(s, c) implies s[j] != c by {
            if j > 0 {
                assert(s.skip(1)[j - 1] == s[j]);
            }
        }
    }
}

/// A character absent from the first `k` and standing at `k` has position `k`.
pub proof fn lemma_position_at(s: Seq<char>, c: char, k: int)
    requires
        0 <= k <= s.len(),
        k < s.len() ==> s[k] == c,
        forall|j: int| 0 <= j < k ==> s[j] != c,
    ensures
        position(s, c) == k,
{
    lemma_position(s, c);
    let p = position(s, c);
    if p < k {
        assert(s[p] == c);
    } else if k < p {
        assert(s[k] != c);
    }
}

/// How many characters stand before the first `c`.
pub fn position_of(s: &[char], c: char) -> (p: usize)
    ensures
        p == position(s@, c),
        p <= s@.len(),
{
    let mut i: usize = 0;
    while i < s.len() && s[i] != c
        invariant
            i <= s@.len(),
            forall|j: int| 0 <= j < i ==> s@[j] != c,
        decreases s@.len() - i,
    {
        i += 1;
    }
    proof {
        lemma_position_at(s@, c, i as int);
    }
    i
}

/// What stands before and after the first `c`, if there is one.
pub fn split_once_at(s: &[char], c: char) -> (r: Option<(&[char], &[char])>)
    ensures
        r matches Some(p) ==> split_once(s@, c) == Some((p.0@, p.1@)),
        r is None ==> split_once(s@, c) is None,
{
    let p: usize = position_of(s, c);
    if p < s.len() {
        assert(s@.subrange(0, p as int) =~= s@.take(p as int));
        assert(s@.subrange(p + 1, s@.len() as int) =~= s@.skip(p + 1));
        Some((vstd::slice::slice_subrange(s, 0, p), vstd::slice::slice_subrange(s, p + 1, s.len())))
    } else {
        None
    }
}

/// Whether `s` starts with `p`.
pub fn has_prefix(s: &[char], p: &[char]) -> (r: bool)
    ensures
        r == starts_with(s@, p@),
{
    if p.len() > s.len() {
        return false;
    }
    assert(s@.subrange(0, p@.len() as int) =~= s@.take(p@.len() as int));
    same_chars(vstd::slice::slice_subrange(s, 0, p.len()), p)
}


/// The pieces of `s` between the line ends (carriage return and line feed).
pub open spec fn lines(s: Seq<char>) -> Seq<Seq<char>>
    decreases s.len(),
{
    if s.len() == 0 {
        seq![Seq::empty()]
    } else if s.len() > 1 && s[s.len() - 2] == '\r' && s.last() == '\n' {
        lines(s.take(s.len() - 2)).push(Seq::empty())
    } else {
        let rest = lines(s.drop_last());
        rest.drop_last().push(rest.last().push(s.last()))
    }
}

/// Whether `s` ends with `p`.
pub open spec fn ends_with(s: Seq<char>, p: Seq<char>) -> bool {
    p.len() <= s.len() && s.skip(s.len() - p.len()) == p
}

/// `s` without `p` in front, where it starts with `p`.
pub open spec fn strip_prefix(s: Seq<char>, p: Seq<char>) -> Option<Seq<char>> {
    if starts_with(s, p) {
        Some(s.skip(p.len() as int))
    } else {
        None
    }
}

/// `s` without `p` at its end, where it ends with `p`.
pub open spec fn strip_suffix(s: Seq<char>, p: Seq<char>) -> Option<Seq<char>> {
    if ends_with(s, p) {
        Some(s.take(s.len() - p.len()))
    } else {
        None
    }
}

/// Whether `p` stands somewhere in `s`.
pub open spec fn contains_text(s: Seq<char>, p: Seq<char>) -> bool {
    exists|i: int| 0 <= i && i + p.len() <= s.len() && #[trigger] s.subrange(i, i + p.len()) == p
}

/// `s` without the occurrences of `c` at its end.
pub open spec fn trim_end_char(s: Seq<char>, c: char) -> Seq<char>
    decreases s.len(),
{
    if s.len() > 0 && s.last() == c {
        trim_end_char(s.drop_last(), c)
    } else {
        s
    }
}

/// `s` without `p` in front, where it starts with `p`.
pub fn without_prefix(s: &str, p: &str) -> (r: Option<String>)
    ensures
        match r {
            Some(t) => strip_prefix(s@, p@) == Some(t@),
            None => strip_prefix(s@, p@) is None,
        },
{
    let sc = chars_of(s);
    let pc = chars_of(p);
    if has_prefix(sc.as_slice(), pc.as_slice()) {
        let rest = vstd::slice::slice_subrange(sc.as_slice(), pc.len(), sc.len());
        assert(rest@ =~= s@.skip(p@.len() as int));
        Some(string_of(rest))
    } else {
        None
    }
}

/// `s` without `p` at its end, where it ends with `p`.
pub fn without_suffix(s: &str, p: &str) -> (r: Option<String>)
    ensures
        match r {
            Some(t) => strip_suffix(s@, p@) == Some(t@),
            None => strip_suffix(s@, p@) is None,
        },
{
    let sc = chars_of(s);
    let pc = chars_of(p);
    if pc.len() > sc.len() {
        return None;
    }
    let k: usize = sc.len() - pc.len();
    let tail = vstd::slice::slice_subrange(sc.as_slice(), k, sc.len());
    assert(tail@ =~= s@.skip(s@.len() - p@.len()));
    if same_chars(tail, pc.as_slice()) {
        let front = vstd::slice::slice_subrange(sc.as_slice(), 0, k);
        assert(front@ =~= s@.take(s@.len() - p@.len()));
        Some(string_of(front))
    } else {
        None
    }
}

/// Whether `p` stands somewhere in `s`.
pub fn has_text(s: &[char], p: &[char]) -> (r: bool)
    ensures
        r == contains_text(s@, p@),
{
    if p.len() > s.len() {
        return false;
    }
    let last: usize = s.len() - p.len();
    let mut i: usize = 0;
    loop
        invariant
            last == s@.len() - p@.len(),
            s@.len() <= usize::MAX,
            i <= last,
            forall|j: int| 0 <= j < i ==> #[trigger] s@.subrange(j, j + p@.len()) != p@,
        decreases last - i,
    {
        let part = vstd::slice::slice_subrange(s, i, i + p.len());
        if same_chars(part, p) {
            return true;
        }
        if i == last {
            return false;
        }
        i += 1;
    }
}

/// `s` without the occurrences of `c` at its end.
pub fn without_trailing(s: &str, c: char) -> (r: String)
    ensures
        r@ == trim_end_char(s@, c),
{
    let sc = chars_of(s);
    let mut n: usize = sc.len();
    assert(sc@.take(n as int) =~= sc@);
    while n > 0 && sc[n - 1] == c
        invariant
            n <= sc@.len(),
            trim_end_char(sc@, c) == trim_end_char(sc@.take(n as int), c),
        decreases n,
    {
        assert(sc@.take(n as int).last() == sc@[n - 1]);
        assert(sc@.take(n as int).drop_last() =~= sc@.take(n - 1));
        n -= 1;
    }
    let front = vstd::slice::slice_subrange(sc.as_slice(), 0, n);
    assert(front@ =~= sc@.take(n as int));
    assert(n > 0 ==> sc@.take(n as int).last() == sc@[n - 1]);
    string_of(front)
}

/// `s` with its ASCII letters in lower case.
pub open spec fn lower(s: Seq<char>) -> Seq<char> {
    Seq::new(s.len(), |i: int| lower_char(s[i]))
}

/// `c` in lower case, where it is an ASCII letter.
pub open spec fn lower_char(c: char) -> char {
    if 65 <= c as u32 <= 90 {
        ((c as u32) + 32) as u8 as char
    } else {
        c
    }
}

/// `c` in lower case, where it is an ASCII letter.
pub fn to_lower_char(c: char) -> (r: char)
    ensures
        r == lower_char(c),
{
    let n: u32 = c as u32;
    if 65 <= n && n <= 90 {
        (n + 32) as u8 as char
    } else {
        c
    }
}

/// `s` with its ASCII letters in lower case.
pub fn to_lower(s: &[char]) -> (out: Vec<char>)
    ensures
        out@ == lower(s@),
{
    let mut out: Vec<char> = Vec::new();
    let mut i: usize = 0;
    while i < s.len()
        invariant
            i <= s@.len(),
            out@.len() == i,
            forall|j: int| 0 <= j < i ==> #[trigger] out@[j] == lower_char(s@[j]),
        decreases s@.len() - i,
    {
        out.push(to_lower_char(s[i]));
        i += 1;
    }
    assert(out@ =~= lower(s@));
    out
}

proof fn lemma_lines_start(s: Seq<char>, from: int, i: int, held: Seq<Seq<char>>)
    requires
        0 <= from <= i < s.len(),
        lines(s.take(i)) == held.push(s.subrange(from, i)),
        !(i > 0 && s[i - 1] == '\r' && s[i] == '\n'),
    ensures
        lines(s.take(i + 1)) == held.push(s.subrange(from, i + 1)),
{
    let t = s.take(i + 1);
    assert(t.drop_last() =~= s.take(i));
    assert(t.last() == s[i]);
    assert(t.len() > 1 ==> t[t.len() - 2] == s[i - 1]);
    assert(held.push(s.subrange(from, i)).drop_last() =~= held);
    assert(s.subrange(from, i + 1) =~= s.subrange(from, i).push(s[i]));
}

/// The pieces of `s` between the line ends.
pub fn lines_of(s: &[char]) -> (out: Vec<String>)
    ensures
        texts(out@) == lines(s@),
        out@.len() >= 1,
{
    let mut out: Vec<String> = Vec::new();
    let mut i: usize = 0;
    let mut from: usize = 0;
    assert(s@.take(0) =~= Seq::<char>::empty());
    assert(lines(s@.take(0)) =~= texts(out@).push(s@.subrange(0, 0)));
    while i < s.len()
        invariant
            from <= i <= s@.len(),
            i < s@.len() && i > 0 && i > from ==> !(s@[i - 1] == '\r' && s@[i as int] == '\n'),
            from == i && i > 0 ==> s@[i - 1] == '\n',
            lines(s@.take(i as int)) == texts(out@).push(s@.subrange(from as int, i as int)),
        decreases s@.len() - i,
    {
        let ghost held = texts(out@);
        if s[i] == '\r' && s.len() - i > 1 && s[i + 1] == '\n' {
            proof {
                let t = s@.take(i + 2);
                assert(t.take(t.len() - 2) =~= s@.take(i as int));
                assert(t[t.len() - 2] == s@[i as int] && t.last() == s@[i + 1]);
            }
            out.push(string_of(vstd::slice::slice_subrange(s, from, i)));
            assert(texts(out@) =~= held.push(s@.subrange(from as int, i as int)));
            i += 2;
            from = i;
            assert(s@.subrange(from as int, i as int) =~= Seq::<char>::empty());
        } else {
            proof {
                lemma_lines_start(s@, from as int, i as int, held);
            }
            i += 1;
        }
    }
    assert(s@.take(i as int) =~= s@);
    let ghost held = texts(out@);
    out.push(string_of(vstd::slice::slice_subrange(s, from, i)));
    assert(texts(out@) =~= held.push(s@.subrange(from as int, i as int)));
    out
}

// ---------------------------------------------------------------------------
// Order
// ---------------------------------------------------------------------------

/// Whether `a` comes before `b` in the order of their characters.
pub open spec fn less(a: Seq<char>, b: Seq<char>) -> bool
    decreases b.len(),
{
    if b.len() == 0 {
        false
    } else if a.len() == 0 {
        true
    } else if a[0] != b[0] {
        a[0] < b[0]
    } else {
        less(a.skip(1), b.skip(1))
    }
}

/// Of two different texts one comes before the other, and not both.
pub proof fn less_is_total(a: Seq<char>, b: Seq<char>)
    ensures
        a != b ==> less(a, b) != less(b, a),
        !less(a, a),
    decreases a.len(),
{
    if a.len() > 0 {
        if b.len() > 0 && a[0] == b[0] {
            less_is_total(a.skip(1), b.skip(1));
            if a.skip(1) == b.skip(1) {
                assert(a =~= seq![a[0]] + a.skip(1));
                assert(b =~= seq![b[0]] + b.skip(1));
            }
        }
        less_is_total(a.skip(1), a.skip(1));
    } else if b.len() == 0 {
        assert(a =~= b);
    }
}

/// The order is transitive.
pub proof fn less_is_transitive(a: Seq<char>, b: Seq<char>, c: Seq<char>)
    requires
        less(a, b),
        less(b, c),
    ensures
        less(a, c),
    decreases a.len(),
{
    if a.len() > 0 && a[0] == b[0] && b[0] == c[0] {
        less_is_transitive(a.skip(1), b.skip(1), c.skip(1));
    }
}

/// Whether `a` comes before `b`.
pub fn is_less(a: &str, b: &str) -> (r: bool)
    ensures
        r == less(a@, b@),
{
    let x = chars_of(a);
    let y = chars_of(b);
    let mut i: usize = 0;
    assert(x@.skip(0) =~= x@ && y@.skip(0) =~= y@);
    while i < x.len() && i < y.len() && x[i] == y[i]
        invariant
            i <= x@.len(),
            i <= y@.len(),
            less(x@, y@) == less(x@.skip(i as int), y@.skip(i as int)),
        decreases x@.len() - i,
    {
        assert(x@.skip(i as int).skip(1) =~= x@.skip(i + 1));
        assert(y@.skip(i as int).skip(1) =~= y@.skip(i + 1));
        i += 1;
    }
    if i >= y.len() {
        false
    } else if i >= x.len() {
        true
    } else {
        let c: char = x[i];
        let d: char = y[i];
        c < d
    }
}

/// The texts come in order, none twice.
pub open spec fn ascending(s: Seq<Seq<char>>) -> bool {
    forall|i: int, j: int| 0 <= i < j < s.len() ==> less(#[trigger] s[i], #[trigger] s[j])
}

/// A new text, put between those before and those behind it, keeps the order.
pub proof fn ascending_insert(s: Seq<Seq<char>>, p: int, x: Seq<char>)
    requires
        ascending(s),
        0 <= p <= s.len(),
        forall|i: int| 0 <= i < p ==> less(#[trigger] s[i], x),
        p < s.len() ==> less(x, s[p]),
    ensures
        ascending(s.insert(p, x)),
{
    let t = s.insert(p, x);
    assert forall|i: int, j: int| 0 <= i < j < t.len() implies less(#[trigger] t[i], #[trigger] t[j]) by {
        let a = if i < p {
            i
        } else {
            i - 1
        };
        let b = if j < p {
            j
        } else {
            j - 1
        };
        if i != p && j != p {
            assert(t[i] == s[a] && t[j] == s[b]);
        } else if j == p {
            assert(t[i] == s[a]);
        } else {
            assert(t[j] == s[b]);
            if b > p {
                less_is_transitive(x, s[p], s[b]);
            }
        }
    }
}


/// `x` put behind all texts of `s` that do not come after it, from the end.
pub open spec fn placed(s: Seq<Seq<char>>, x: Seq<char>) -> Seq<Seq<char>>
    decreases s.len(),
{
    if s.len() > 0 && less(x, s.last()) {
        placed(s.drop_last(), x).push(s.last())
    } else {
        s.push(x)
    }
}

/// The texts in order.
pub open spec fn in_order(s: Seq<Seq<char>>) -> Seq<Seq<char>>
    decreases s.len(),
{
    if s.len() == 0 {
        Seq::empty()
    } else {
        placed(in_order(s.drop_last()), s.last())
    }
}

/// The texts one behind the other, `sep` between them.
pub open spec fn joined(s: Seq<Seq<char>>, sep: Seq<char>) -> Seq<char>
    decreases s.len(),
{
    if s.len() == 0 {
        Seq::empty()
    } else if s.len() == 1 {
        s[0]
    } else {
        joined(s.drop_last(), sep) + sep + s.last()
    }
}

/// No text comes before an earlier one.
pub open spec fn sorted(s: Seq<Seq<char>>) -> bool {
    forall|i: int, j: int| 0 <= i < j < s.len() ==> !less(#[trigger] s[j], #[trigger] s[i])
}

proof fn lemma_placed(s: Seq<Seq<char>>, x: Seq<char>)
    requires
        sorted(s),
    ensures
        sorted(placed(s, x)),
        placed(s, x).to_multiset() == s.to_multiset().insert(x),
        forall|y: Seq<char>| (forall|i: int| 0 <= i < s.len() ==> !less(y, #[trigger] s[i])) && !less(y, x)
            ==> (forall|i: int| 0 <= i < placed(s, x).len() ==> !less(y, #[trigger] placed(s, x)[i])),
    decreases s.len(),
{
    broadcast use vstd::seq_lib::group_to_multiset_ensures;

    if s.len() > 0 && less(x, s.last()) {
        let front = s.drop_last();
        let last = s.last();
        assert(sorted(front)) by {
            assert forall|i: int, j: int| 0 <= i < j < front.len() implies !less(
                #[trigger] front[j],
                #[trigger] front[i],
            ) by {
                assert(front[j] == s[j] && front[i] == s[i]);
            }
        }
        lemma_placed(front, x);
        let p = placed(front, x);
        let r = placed(s, x);
        assert(forall|i: int| 0 <= i < front.len() ==> !less(last, #[trigger] front[i])) by {
            assert forall|i: int| 0 <= i < front.len() implies !less(last, #[trigger] front[i]) by {
                assert(front[i] == s[i]);
                assert(last == s[s.len() - 1]);
            }
        }
        less_is_total(x, last);
        assert(x != last);
        assert(!less(last, x));
        assert(forall|i: int| 0 <= i < p.len() ==> !less(last, #[trigger] p[i]));
        assert forall|i: int, j: int| 0 <= i < j < r.len() implies !less(
            #[trigger] r[j],
            #[trigger] r[i],
        ) by {
            if j < p.len() {
                assert(r[j] == p[j] && r[i] == p[i]);
            } else {
                assert(r[i] == p[i]);
            }
        }
        assert(s =~= front.push(last));
        assert(s.to_multiset() == front.to_multiset().insert(last));
        assert(r.to_multiset() == p.to_multiset().insert(last));
        assert(r.to_multiset() =~= s.to_multiset().insert(x));
        assert forall|y: Seq<char>| (forall|i: int| 0 <= i < s.len() ==> !less(y, #[trigger] s[i])) && !less(y, x) implies (
        forall|i: int| 0 <= i < r.len() ==> !less(y, #[trigger] r[i])) by {
            assert(forall|i: int| 0 <= i < front.len() ==> !less(y, #[trigger] front[i])) by {
                assert forall|i: int| 0 <= i < front.len() implies !less(y, #[trigger] front[i]) by {
                    assert(front[i] == s[i]);
                }
            }
            assert(!less(y, s[s.len() - 1]));
            assert forall|i: int| 0 <= i < r.len() implies !less(y, #[trigger] r[i]) by {
                if i < p.len() {
                    assert(r[i] == p[i]);
                }
            }
        }
    } else {
        let r = s.push(x);
        assert forall|i: int, j: int| 0 <= i < j < r.len() implies !less(
            #[trigger] r[j],
            #[trigger] r[i],
        ) by {
            if j < s.len() {
                assert(r[j] == s[j] && r[i] == s[i]);
            } else {
                let last = s.last();
                assert(!less(x, last));
                if i < s.len() - 1 && less(x, s[i]) {
                    assert(!less(s[s.len() - 1], s[i]));
                    less_is_total(s[i], last);
                    if s[i] != last {
                        less_is_transitive(x, s[i], last);
                    }
                }
            }
        }
    }
}

/// The texts in order are the same texts, in order.
pub proof fn in_order_sorts(s: Seq<Seq<char>>)
    ensures
        sorted(in_order(s)),
        in_order(s).to_multiset() == s.to_multiset(),
    decreases s.len(),
{
    broadcast use vstd::seq_lib::group_to_multiset_ensures;

    if s.len() > 0 {
        in_order_sorts(s.drop_last());
        lemma_placed(in_order(s.drop_last()), s.last());
        assert(s =~= s.drop_last().push(s.last()));
    } else {
        assert(in_order(s) =~= s);
    }
}

/// The texts in order.
pub fn sort_texts(v: Vec<String>) -> (out: Vec<String>)
    ensures
        texts(out@) == in_order(texts(v@)),
{
    let ghost all = texts(v@);
    let ghost given = v@;
    let mut out: Vec<String> = Vec::new();
    assert(all.take(0) =~= Seq::empty());
    assert(texts(out@) =~= in_order(all.take(0)));
    for t in iter: v
        invariant
            iter.seq() == given,
            all == texts(given),
            texts(out@) == in_order(all.take(iter.index() as int)),
    {
        let ghost i = iter.index() as int;
        let ghost before = texts(out@);
        proof {
            assert(all.take(i + 1).drop_last() =~= all.take(i));
            assert(all.take(i + 1).last() == t@);
        }
        let mut p: usize = out.len();
        assert(before.take(p as int) =~= before);
        assert(before.skip(p as int) =~= Seq::empty());
        assert(placed(before.take(p as int), t@) + before.skip(p as int) =~= placed(before, t@));
        while p > 0 && is_less(t.as_str(), out[p - 1].as_str())
            invariant
                p <= out@.len(),
                before == texts(out@),
                placed(before.take(p as int), t@) + before.skip(p as int) == placed(before, t@),
            decreases p,
        {
            assert(before.take(p as int).last() == out@[p - 1]@);
            assert(before.take(p as int).drop_last() =~= before.take(p - 1));
            assert(placed(before.take(p as int), t@) + before.skip(p as int) =~= placed(
                before.take(p - 1),
                t@,
            ) + before.skip(p - 1));
            p -= 1;
        }
        proof {
            if p > 0 {
                assert(before.take(p as int).last() == out@[p - 1]@);
            }
            assert(placed(before.take(p as int), t@) == before.take(p as int).push(t@));
            assert(before.take(p as int).push(t@) + before.skip(p as int) =~= before.insert(
                p as int,
                t@,
            ));
        }
        let ghost tv = t@;
        out.insert(p, t);
        assert(texts(out@) =~= before.insert(p as int, tv));
    }
    assert(all.take(all.len() as int) =~= all);
    out
}

/// The texts one behind the other, `sep` between them.
pub fn join_texts(v: &Vec<String>, sep: &str) -> (out: String)
    ensures
        out@ == joined(texts(v@), sep@),
{
    let ghost all = texts(v@);
    let mut out = String::new();
    let mut i: usize = 0;
    assert(out@ =~= joined(all.take(0), sep@));
    while i < v.len()
        invariant
            i <= v@.len(),
            all == texts(v@),
            out@ == joined(all.take(i as int), sep@),
        decreases v@.len() - i,
    {
        proof {
            assert(all.take(i + 1).drop_last() =~= all.take(i as int));
            assert(all.take(i + 1).last() == v@[i as int]@);
        }
        if i > 0 {
            out.push_str(sep);
        }
        let ghost before = out@;
        out.push_str(v[i].as_str());
        assert(out@ =~= joined(all.take(i + 1), sep@));
        i += 1;
    }
    assert(all.take(i as int) =~= all);
    out
}

// ---------------------------------------------------------------------------
// What reading a text undoes
// ---------------------------------------------------------------------------

/// A text without white space, behind white space or nothing, is one more word.
pub(crate) proof fn lemma_word_behind(front: Seq<char>, w: Seq<char>)
    requires
        w.len() > 0,
        forall|i: int| 0 <= i < w.len() ==> !is_space(#[trigger] w[i]),
        front.len() > 0 ==> is_space(front.last()),
    ensures
        words(front + w) == words(front).push(w),
    decreases w.len(),
{
    let s = front + w;
    assert(s.last() == w[w.len() - 1]);
    assert(s.drop_last() =~= front + w.drop_last());
    if w.len() == 1 {
        assert(s.drop_last() =~= front);
        assert(seq![s.last()] =~= w);
        if front.len() > 0 {
            assert(s[s.len() - 2] == front.last());
        }
    } else {
        let v = w.drop_last();
        assert forall|i: int| 0 <= i < v.len() implies !is_space(#[trigger] v[i]) by {
            assert(v[i] == w[i]);
        }
        lemma_word_behind(front, v);
        assert(s[s.len() - 2] == w[w.len() - 2]);
        assert(words(front).push(v).drop_last() =~= words(front));
        assert(v.push(w.last()) =~= w);
    }
}

/// Words with one white space between them are read back as the words.
pub proof fn joined_words_are_read_back(ws: Seq<Seq<char>>, space: char)
    requires
        is_space(space),
        forall|i: int, j: int|
            0 <= i < ws.len() && 0 <= j < ws[i].len() ==> !is_space(#[trigger] ws[i][j]),
        forall|i: int| 0 <= i < ws.len() ==> (#[trigger] ws[i]).len() > 0,
    ensures
        words(joined(ws, seq![space])) == ws,
    decreases ws.len(),
{
    if ws.len() == 1 {
        lemma_word_behind(Seq::empty(), ws[0]);
        assert(Seq::<char>::empty() + ws[0] =~= ws[0]);
        assert(Seq::<Seq<char>>::empty().push(ws[0]) =~= ws);
    } else if ws.len() > 1 {
        let front = ws.drop_last();
        assert forall|i: int, j: int| 0 <= i < front.len() && 0 <= j < front[i].len() implies !is_space(
            #[trigger] front[i][j],
        ) by {
            assert(front[i] == ws[i]);
            assert(!is_space(ws[i][j]));
        }
        assert forall|i: int| 0 <= i < front.len() implies (#[trigger] front[i]).len() > 0 by {
            assert(front[i] == ws[i]);
        }
        joined_words_are_read_back(front, space);
        let head = joined(front, seq![space]) + seq![space];
        assert(head.drop_last() =~= joined(front, seq![space]));
        assert(words(head) == words(joined(front, seq![space])));
        let last = ws[ws.len() - 1];
        assert(last.len() > 0);
        assert forall|j: int| 0 <= j < last.len() implies !is_space(#[trigger] last[j]) by {
            assert(!is_space(ws[ws.len() - 1][j]));
        }
        lemma_word_behind(head, last);
        assert(front.push(last) =~= ws);
    } else {
        assert(ws =~= Seq::empty());
        assert(words(joined(ws, seq![space])) =~= ws);
    }
}

/// Pieces with the separator between them are the text, and no piece holds it.
pub proof fn pieces_make_the_text(s: Seq<char>, sep: char)
    ensures
        split_on(s, sep).len() > 0,
        joined(split_on(s, sep), seq![sep]) == s,
        forall|i: int, j: int|
            0 <= i < split_on(s, sep).len() && 0 <= j < split_on(s, sep)[i].len()
                ==> #[trigger] split_on(s, sep)[i][j] != sep,
    decreases s.len(),
{
    let all = split_on(s, sep);
    if s.len() == 0 {
        assert(joined(all, seq![sep]) =~= s);
    } else {
        let c = s.last();
        let rest = split_on(s.drop_last(), sep);
        pieces_make_the_text(s.drop_last(), sep);
        assert(s.drop_last().push(c) =~= s);
        if c == sep {
            assert(all.drop_last() =~= rest);
            assert(joined(all, seq![sep]) =~= s);
        } else {
            let n = rest.len() - 1;
            assert(all.len() == rest.len());
            assert(all.drop_last() =~= rest.drop_last());
            assert(all.last() == rest.last().push(c));
            if n == 0 {
                assert(joined(all, seq![sep]) =~= s);
            } else {
                let front = joined(rest.drop_last(), seq![sep]) + seq![sep];
                assert(joined(all, seq![sep]) =~= (front + rest.last()).push(c));
            }
            assert forall|i: int, j: int| 0 <= i < all.len() && 0 <= j < all[i].len() implies #[trigger] all[i][j]
                != sep by {
                if i < n {
                    assert(all[i] == rest[i]);
                    assert(rest[i][j] != sep);
                } else if j < rest[n].len() {
                    assert(rest[n][j] != sep);
                }
            }
        }
    }
}

/// Lines with line ends between them are the text, and no line holds a line end.
pub proof fn lines_make_the_text(s: Seq<char>)
    ensures
        lines(s).len() > 0,
        joined(lines(s), seq!['\r', '\n']) == s,
        lines(s).last().len() > 0 ==> s.len() > 0 && lines(s).last().last() == s.last(),
        forall|i: int, j: int|
            0 <= i < lines(s).len() && 0 <= j < lines(s)[i].len() - 1 ==> !(
            #[trigger] lines(s)[i][j] == '\r' && lines(s)[i][j + 1] == '\n'),
    decreases s.len(),
{
    let end = seq!['\r', '\n'];
    let all = lines(s);
    if s.len() == 0 {
        assert(joined(all, end) =~= s);
    } else if s.len() > 1 && s[s.len() - 2] == '\r' && s.last() == '\n' {
        let t = s.take(s.len() - 2);
        lines_make_the_text(t);
        assert(all.drop_last() =~= lines(t));
        assert(t + end =~= s);
        assert(joined(all, end) =~= s);
        assert forall|i: int, j: int| 0 <= i < all.len() && 0 <= j < all[i].len() - 1 implies !(
        #[trigger] all[i][j] == '\r' && all[i][j + 1] == '\n') by {
            if i < lines(t).len() {
                assert(all[i] == lines(t)[i]);
                assert(!(lines(t)[i][j] == '\r' && lines(t)[i][j + 1] == '\n'));
            }
        }
    } else {
        let c = s.last();
        let t = s.drop_last();
        let rest = lines(t);
        lines_make_the_text(t);
        assert(t.push(c) =~= s);
        let n = rest.len() - 1;
        assert(all.drop_last() =~= rest.drop_last());
        assert(all.last() == rest.last().push(c));
        if n == 0 {
            assert(joined(all, end) =~= s);
        } else {
            let front = joined(rest.drop_last(), end) + end;
            assert(joined(all, end) =~= (front + rest.last()).push(c));
        }
        assert forall|i: int, j: int| 0 <= i < all.len() && 0 <= j < all[i].len() - 1 implies !(
        #[trigger] all[i][j] == '\r' && all[i][j + 1] == '\n') by {
            if i < n {
                assert(all[i] == rest[i]);
                assert(!(rest[i][j] == '\r' && rest[i][j + 1] == '\n'));
            } else if j + 1 < rest[n].len() {
                assert(!(rest[n][j] == '\r' && rest[n][j + 1] == '\n'));
            } else {
                assert(all[i][j] == rest.last().last());
                assert(s[s.len() - 2] == t.last());
            }
        }
    }
}

/// White space around a text is trimmed, and nothing else.
pub proof fn only_white_space_is_trimmed(a: Seq<char>, t: Seq<char>, b: Seq<char>)
    requires
        forall|i: int| 0 <= i < a.len() ==> is_space(#[trigger] a[i]),
        forall|i: int| 0 <= i < b.len() ==> is_space(#[trigger] b[i]),
        t.len() > 0,
        !is_space(t[0]),
        !is_space(t.last()),
    ensures
        trim(a + t + b) == t,
    decreases a.len() + b.len(),
{
    let s = a + t + b;
    if a.len() > 0 {
        let x = a.skip(1);
        assert forall|i: int| 0 <= i < x.len() implies is_space(#[trigger] x[i]) by {
            assert(x[i] == a[i + 1]);
        }
        assert(is_space(a[0]));
        assert(s[0] == a[0]);
        assert(s.skip(1) =~= x + t + b);
        only_white_space_is_trimmed(x, t, b);
    } else {
        assert(s =~= t + b);
        assert(s[0] == t[0]);
        assert(trim_start(s) == s);
        if b.len() > 0 {
            let y = b.drop_last();
            assert forall|i: int| 0 <= i < y.len() implies is_space(#[trigger] y[i]) by {
                assert(y[i] == b[i]);
            }
            assert(is_space(b[b.len() - 1]));
            assert(s.last() == b.last());
            assert(s.drop_last() =~= a + t + y);
            only_white_space_is_trimmed(a, t, y);
            assert((a + t + y)[0] == t[0]);
            assert(trim_start(a + t + y) == a + t + y);
        } else {
            assert(s =~= t);
        }
    }
}

/// A number that is too large is refused as such, and so is a text with a character that is
/// no digit, as such.
pub proof fn numbers_that_do_not_fit_are_refused(n: nat, radix: nat, upper: bool, max: nat)
    requires
        2 <= radix <= 16,
        n > max,
    ensures
        parse_digits(digits(n, radix, upper), radix, max) == Err::<nat, IntError>(
            IntError::TooLarge,
        ),
    decreases n,
{
    let s = digits(n, radix, upper);
    let k = n / radix;
    assert(n == k * radix + n % radix) by (nonlinear_arith)
        requires
            k == n / radix,
            radix >= 2,
    ;
    if n < radix {
        assert(s =~= seq![digit_char(n, upper)]);
        assert(s.drop_last() =~= Seq::<char>::empty());
        assert(parse_digits(s.drop_last(), radix, max) == Ok::<nat, IntError>(0));
        assert(digit_value(s.last(), radix) == Some(n));
    } else {
        assert(s.drop_last() =~= digits(k, radix, upper));
        if k > max {
            assert(k < n) by (nonlinear_arith)
                requires
                    n == k * radix + n % radix,
                    radix >= 2,
                    n > 0,
            ;
            numbers_that_do_not_fit_are_refused(k, radix, upper, max);
        } else {
            digits_round_trip(k, radix, upper, max);
            assert(digit_value(s.last(), radix) == Some(n % radix));
        }
    }
}

/// A character that is no digit makes the text no number.
pub proof fn only_digits_are_read(s: Seq<char>, radix: nat, max: nat, i: int)
    requires
        0 <= i < s.len(),
        digit_value(s[i], radix) is None,
    ensures
        parse_digits(s, radix, max) is Err,
    decreases s.len(),
{
    if i < s.len() - 1 {
        assert(s.drop_last()[i] == s[i]);
        only_digits_are_read(s.drop_last(), radix, max, i);
    }
}

/// What is trimmed off the end is one character over and over, and all of it.
pub proof fn only_the_character_is_trimmed(s: Seq<char>, c: char)
    ensures
        ({
            let t = trim_end_char(s, c);
            &&& t.len() <= s.len()
            &&& s.take(t.len() as int) == t
            &&& t.len() > 0 ==> t.last() != c
            &&& forall|i: int| t.len() <= i < s.len() ==> s[i] == c
        }),
    decreases s.len(),
{
    if s.len() > 0 && s.last() == c {
        only_the_character_is_trimmed(s.drop_last(), c);
        let t = trim_end_char(s, c);
        assert(s.take(t.len() as int) =~= s.drop_last().take(t.len() as int));
        assert forall|i: int| t.len() <= i < s.len() implies s[i] == c by {
            if i < s.len() - 1 {
                assert(s.drop_last()[i] == s[i]);
            }
        }
    } else {
        assert(s.take(s.len() as int) =~= s);
    }
}

/// A text is found wherever it stands.
pub proof fn texts_are_found_where_they_stand(a: Seq<char>, p: Seq<char>, b: Seq<char>)
    ensures
        contains_text(a + p + b, p),
{
    let s = a + p + b;
    assert(s.subrange(a.len() as int, a.len() as int + p.len()) =~= p);
}

/// A text is found only where its characters are.
pub proof fn texts_are_found_nowhere_else(s: Seq<char>, p: Seq<char>, k: int)
    requires
        0 <= k < p.len(),
        forall|i: int| 0 <= i < s.len() ==> #[trigger] s[i] != p[k],
    ensures
        !contains_text(s, p),
{
    if contains_text(s, p) {
        let i = choose|i: int|
            0 <= i && i + p.len() <= s.len() && #[trigger] s.subrange(i, i + p.len()) == p;
        assert(s[i + k] == s.subrange(i, i + p.len())[k]);
    }
}

/// A number may have a plus in front, and a plus alone is no number; nor is nothing.
pub proof fn a_plus_is_passed_over(n: nat, radix: nat, upper: bool, max: nat)
    requires
        2 <= radix <= 16,
        n <= max,
    ensures
        parse_uint(seq!['+'] + digits(n, radix, upper), radix, max) == Ok::<nat, IntError>(n),
        parse_uint(seq!['+'], radix, max) == Err::<nat, IntError>(IntError::InvalidDigit),
        parse_uint(Seq::empty(), radix, max) == Err::<nat, IntError>(IntError::Empty),
{
    digits_round_trip(n, radix, upper, max);
    let s = seq!['+'] + digits(n, radix, upper);
    assert(s.skip(1) =~= digits(n, radix, upper));
    let p = seq!['+'];
    assert(p.drop_last() =~= Seq::empty());
    assert(parse_digits(p.drop_last(), radix, max) == Ok::<nat, IntError>(0));
}

/// The white space of Unicode, and nothing else.
pub proof fn white_space_is_that_of_unicode(c: char)
    ensures
        is_space(c) <==> c == '\t' || c == '\n' || c == '\u{B}' || c == '\u{C}' || c == '\r' || c == ' '
            || c == '\u{85}' || c == '\u{A0}' || c == '\u{1680}' || c == '\u{2000}' || c == '\u{2001}'
            || c == '\u{2002}' || c == '\u{2003}' || c == '\u{2004}' || c == '\u{2005}' || c
            == '\u{2006}' || c == '\u{2007}' || c == '\u{2008}' || c == '\u{2009}' || c == '\u{200A}'
            || c == '\u{2028}' || c == '\u{2029}' || c == '\u{202F}' || c == '\u{205F}' || c
            == '\u{3000}',
{
}

/// The digits are those of the radix, in either case: 0 to 9, then A to Z.
pub proof fn digits_count_from_zero(d: nat, radix: nat, upper: bool)
    requires
        d < radix <= 16,
    ensures
        digit_value(digit_char(d, upper), radix) == Some(d),
        digit_char(0, upper) == '0',
        digit_char(9, upper) == '9',
        digit_char(10, true) == 'A' && digit_char(10, false) == 'a',
        digit_char(15, true) == 'F' && digit_char(15, false) == 'f',
        digit_value('g', 16) is None && digit_value('G', 16) is None && digit_value('a', 10) is None,
        digit_value('-', 16) is None && digit_value(' ', 16) is None && digit_value('_', 16) is None,
{
}

/// Only the capital letters of ASCII are lowered, each to its small letter.
pub proof fn only_capitals_are_lowered(c: char)
    ensures
        'A' <= c && c <= 'Z' ==> lower_char(c) as u32 == c as u32 + 32,
        !('A' <= c && c <= 'Z') ==> lower_char(c) == c,
        lower_char('A') == 'a' && lower_char('Z') == 'z' && lower_char('E') == 'e',
{
}

} // verus!
