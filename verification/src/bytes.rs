//! Fixed-width integers in byte strings, most or least significant byte first.

use vstd::prelude::*;

verus! {

/// The `n` low bytes of `x`, most significant first.
pub open spec fn be_bytes(x: nat, n: nat) -> Seq<u8>
    decreases n,
{
    if n == 0 {
        Seq::empty()
    } else {
        be_bytes(x / 256, (n - 1) as nat).push((x % 256) as u8)
    }
}

/// The number written by `s`, most significant byte first.
pub open spec fn be_value(s: Seq<u8>) -> nat
    decreases s.len(),
{
    if s.len() == 0 {
        0
    } else {
        be_value(s.drop_last()) * 256 + s.last() as nat
    }
}

/// The number written by `s`, least significant byte first.
pub open spec fn le_value(s: Seq<u8>) -> nat
    decreases s.len(),
{
    if s.len() == 0 {
        0
    } else {
        s[0] as nat + 256 * le_value(s.skip(1))
    }
}

/// The `n` low bytes of `x`, least significant first.
pub open spec fn le_bytes(x: nat, n: nat) -> Seq<u8>
    decreases n,
{
    if n == 0 {
        Seq::empty()
    } else {
        seq![(x % 256) as u8] + le_bytes(x / 256, (n - 1) as nat)
    }
}

/// 256 to the power `n`.
pub open spec fn pow256(n: nat) -> nat
    decreases n,
{
    if n == 0 {
        1
    } else {
        256 * pow256((n - 1) as nat)
    }
}

pub proof fn lemma_be_bytes_len(x: nat, n: nat)
    ensures
        be_bytes(x, n).len() == n,
    decreases n,
{
    if n > 0 {
        lemma_be_bytes_len(x / 256, (n - 1) as nat);
    }
}

/// Reading back what was written gives the number, where it fits.
pub proof fn be_round_trip(x: nat, n: nat)
    requires
        x < pow256(n),
    ensures
        be_bytes(x, n).len() == n,
        be_value(be_bytes(x, n)) == x,
    decreases n,
{
    if n > 0 {
        be_round_trip(x / 256, (n - 1) as nat);
        assert(be_bytes(x, n).drop_last() =~= be_bytes(x / 256, (n - 1) as nat));
    }
}

/// Writing back what was read gives the bytes.
pub proof fn be_round_trip_bytes(s: Seq<u8>)
    ensures
        be_bytes(be_value(s), s.len()) == s,
    decreases s.len(),
{
    if s.len() > 0 {
        be_round_trip_bytes(s.drop_last());
        assert(s =~= s.drop_last().push(s.last()));
        let v = be_value(s.drop_last());
        let l = s.last() as nat;
        assert((v * 256 + l) / 256 == v && (v * 256 + l) % 256 == l);
    }
}

pub proof fn lemma_pow256()
    ensures
        pow256(1) == 0x100,
        pow256(2) == 0x1_0000,
        pow256(4) == 0x1_0000_0000,
        pow256(8) == 0x1_0000_0000_0000_0000,
{
    reveal_with_fuel(pow256, 9);
}

pub proof fn lemma_be_value_2(s: Seq<u8>)
    requires
        s.len() == 2,
    ensures
        be_value(s) == s[0] * 0x100 + s[1],
{
    reveal_with_fuel(be_value, 3);
}

pub proof fn lemma_be_value_4(s: Seq<u8>)
    requires
        s.len() == 4,
    ensures
        be_value(s) == s[0] * 0x100_0000 + s[1] * 0x1_0000 + s[2] * 0x100 + s[3],
{
    reveal_with_fuel(be_value, 5);
}

pub proof fn lemma_be_value_8(s: Seq<u8>)
    requires
        s.len() == 8,
    ensures
        be_value(s) == be_value(s.subrange(0, 4)) * 0x1_0000_0000 + be_value(s.subrange(4, 8)),
        be_value(s.subrange(0, 4)) < 0x1_0000_0000,
        be_value(s.subrange(4, 8)) < 0x1_0000_0000,
{
    lemma_be_value_4(s.subrange(0, 4));
    lemma_be_value_4(s.subrange(4, 8));
    let d7 = s.drop_last();
    let d6 = d7.drop_last();
    let d5 = d6.drop_last();
    let d4 = d5.drop_last();
    assert(d4 =~= s.subrange(0, 4));
    assert(be_value(s) == be_value(d7) * 256 + s[7]);
    assert(be_value(d7) == be_value(d6) * 256 + s[6]);
    assert(be_value(d6) == be_value(d5) * 256 + s[5]);
    assert(be_value(d5) == be_value(d4) * 256 + s[4]);
}

pub proof fn lemma_le_value_2(s: Seq<u8>)
    requires
        s.len() == 2,
    ensures
        le_value(s) == s[0] + s[1] * 0x100,
{
    reveal_with_fuel(le_value, 3);
}

pub proof fn lemma_le_value_4(s: Seq<u8>)
    requires
        s.len() == 4,
    ensures
        le_value(s) == s[0] + s[1] * 0x100 + s[2] * 0x1_0000 + s[3] * 0x100_0000,
{
    reveal_with_fuel(le_value, 5);
}

pub proof fn lemma_be_bytes_8(x: nat)
    ensures
        be_bytes(x, 8) == be_bytes(x / 0x1_0000_0000, 4) + be_bytes(x % 0x1_0000_0000, 4),
{
    let q = x / 0x1_0000_0000;
    let r = x % 0x1_0000_0000;
    lemma_be_bytes_step(q, r, 0x100_0000, 7, 3);
    lemma_be_bytes_step(q, r / 256, 0x1_0000, 6, 2);
    lemma_be_bytes_step(q, r / 256 / 256, 0x100, 5, 1);
    lemma_be_bytes_step(q, r / 256 / 256 / 256, 1, 4, 0);
    assert(r / 256 / 256 / 256 / 256 == 0);
    assert(be_bytes(q, 4) + be_bytes(0, 0) =~= be_bytes(q, 4));
}

/// The last byte of `q` moved up by `256 * w` and filled up with `r`.
proof fn lemma_be_bytes_step(q: nat, r: nat, w: nat, n: nat, k: nat)
    requires
        w > 0,
    ensures
        (q * (256 * w) + r) / 256 == q * w + r / 256,
        be_bytes(q * (256 * w) + r, n + 1) == be_bytes(q * w + r / 256, n).push((r % 256) as u8),
        be_bytes(r, k + 1) == be_bytes(r / 256, k).push((r % 256) as u8),
        be_bytes(q * w + r / 256, n) == be_bytes(q, (n - k) as nat) + be_bytes(r / 256, k) ==>
            be_bytes(q * (256 * w) + r, n + 1) == be_bytes(q, (n - k) as nat) + be_bytes(r, k + 1),
{
    let x = q * (256 * w) + r;
    assert(x == 256 * (q * w + r / 256) + r % 256) by (nonlinear_arith)
        requires
            x == q * (256 * w) + r,
            r == 256 * (r / 256) + r % 256,
    ;
    assert(x / 256 == q * w + r / 256 && x % 256 == r % 256);
    if be_bytes(q * w + r / 256, n) == be_bytes(q, (n - k) as nat) + be_bytes(r / 256, k) {
        assert(be_bytes(x, n + 1) =~= be_bytes(q, (n - k) as nat) + be_bytes(r, k + 1));
    }
}

/// The two bytes of `s` at `at`, most significant first.
pub open spec fn be16(s: Seq<u8>, at: int) -> u16 {
    be_value(s.subrange(at, at + 2)) as u16
}

/// The four bytes of `s` at `at`, most significant first.
pub open spec fn be32(s: Seq<u8>, at: int) -> u32 {
    be_value(s.subrange(at, at + 4)) as u32
}

/// The eight bytes of `s` at `at`, most significant first.
pub open spec fn be64(s: Seq<u8>, at: int) -> u64 {
    be_value(s.subrange(at, at + 8)) as u64
}

/// `part` stands in `s` at `at`.
pub open spec fn stands_at(s: Seq<u8>, at: int, part: Seq<u8>) -> bool {
    0 <= at && at + part.len() <= s.len() && s.subrange(at, at + part.len()) == part
}

/// A number is below the power of its width.
pub proof fn lemma_be_value_bound(s: Seq<u8>)
    ensures
        be_value(s) < pow256(s.len()),
    decreases s.len(),
{
    if s.len() > 0 {
        lemma_be_value_bound(s.drop_last());
    }
}

/// A number that stands somewhere, written again, is what stands there.
pub proof fn lemma_number_again(s: Seq<u8>, at: int, n: nat)
    requires
        0 <= at,
        at + n <= s.len(),
    ensures
        be_value(s.subrange(at, at + n)) < pow256(n),
        be_bytes(be_value(s.subrange(at, at + n)), n) == s.subrange(at, at + n),
{
    lemma_be_value_bound(s.subrange(at, at + n));
    be_round_trip_bytes(s.subrange(at, at + n));
}

/// What stands before a cut stands there still.
pub proof fn lemma_before_cut(s: Seq<u8>, cut: int, at: int, n: int)
    requires
        0 <= at,
        0 <= n,
        at + n <= cut <= s.len(),
    ensures
        s.take(cut).subrange(at, at + n) == s.subrange(at, at + n),
{
    assert(s.take(cut).subrange(at, at + n) =~= s.subrange(at, at + n));
}

/// The two halves of what stands somewhere stand one behind the other.
pub proof fn lemma_stands_split(s: Seq<u8>, at: int, a: Seq<u8>, b: Seq<u8>)
    requires
        stands_at(s, at, a + b),
    ensures
        stands_at(s, at, a),
        stands_at(s, at + a.len(), b),
{
    let ab = a + b;
    let t = s.subrange(at, at + ab.len());
    assert(t == ab);
    assert(s.subrange(at, at + a.len()) =~= t.subrange(0, a.len() as int));
    assert(t.subrange(0, a.len() as int) =~= a);
    assert(s.subrange(at + a.len(), at + a.len() + b.len()) =~= t.subrange(
        a.len() as int,
        ab.len() as int,
    ));
    assert(t.subrange(a.len() as int, ab.len() as int) =~= b);
}

/// A number that was written somewhere is read there.
pub proof fn lemma_stands_number(s: Seq<u8>, at: int, x: nat, n: nat)
    requires
        x < pow256(n),
        stands_at(s, at, be_bytes(x, n)),
    ensures
        be_value(s.subrange(at, at + n)) == x,
        at + n <= s.len(),
{
    be_round_trip(x, n);
}

/// Reading back what was written least significant byte first gives the number,
/// where it fits.
pub proof fn le_round_trip(x: nat, n: nat)
    requires
        x < pow256(n),
    ensures
        le_bytes(x, n).len() == n,
        le_value(le_bytes(x, n)) == x,
    decreases n,
{
    if n > 0 {
        le_round_trip(x / 256, (n - 1) as nat);
        assert(le_bytes(x, n).skip(1) =~= le_bytes(x / 256, (n - 1) as nat));
    }
}

pub proof fn lemma_le_bytes_len(x: nat, n: nat)
    ensures
        le_bytes(x, n).len() == n,
    decreases n,
{
    if n > 0 {
        lemma_le_bytes_len(x / 256, (n - 1) as nat);
    }
}

/// A number that stands somewhere least significant byte first is read there.
pub proof fn lemma_stands_le(s: Seq<u8>, at: int, x: nat, n: nat)
    requires
        x < pow256(n),
        stands_at(s, at, le_bytes(x, n)),
    ensures
        le_value(s.subrange(at, at + n)) == x,
        at + n <= s.len(),
{
    le_round_trip(x, n);
}

/// The two bytes at `at`, most significant first.
pub fn be_u16(buf: &[u8], at: usize) -> (v: u16)
    requires
        at + 2 <= buf@.len(),
    ensures
        v == be_value(buf@.subrange(at as int, at + 2)),
{
    proof {
        lemma_be_value_2(buf@.subrange(at as int, at + 2));
    }
    buf[at] as u16 * 0x100 + buf[at + 1] as u16
}

/// The four bytes at `at`, most significant first.
pub fn be_u32(buf: &[u8], at: usize) -> (v: u32)
    requires
        at + 4 <= buf@.len(),
    ensures
        v == be_value(buf@.subrange(at as int, at + 4)),
{
    proof {
        lemma_be_value_4(buf@.subrange(at as int, at + 4));
    }
    buf[at] as u32 * 0x100_0000 + buf[at + 1] as u32 * 0x1_0000 + buf[at + 2] as u32 * 0x100
        + buf[at + 3] as u32
}

/// The eight bytes at `at`, most significant first.
pub fn be_u64(buf: &[u8], at: usize) -> (v: u64)
    requires
        at + 8 <= buf@.len(),
    ensures
        v == be_value(buf@.subrange(at as int, at + 8)),
{
    proof {
        let s = buf@.subrange(at as int, at + 8);
        lemma_be_value_8(s);
        assert(s.subrange(0, 4) =~= buf@.subrange(at as int, at + 4));
        assert(s.subrange(4, 8) =~= buf@.subrange(at + 4, at + 8));
    }
    assert(at + 8 <= buf.len());
    let hi: u32 = be_u32(buf, at);
    let lo: u32 = be_u32(buf, at + 4);
    hi as u64 * 0x1_0000_0000 + lo as u64
}

/// The two bytes at `at`, least significant first.
pub fn le_u16(buf: &[u8], at: usize) -> (v: u16)
    requires
        at + 2 <= buf@.len(),
    ensures
        v == le_value(buf@.subrange(at as int, at + 2)),
{
    proof {
        lemma_le_value_2(buf@.subrange(at as int, at + 2));
    }
    buf[at] as u16 + buf[at + 1] as u16 * 0x100
}

/// The four bytes at `at`, least significant first.
pub fn le_u32(buf: &[u8], at: usize) -> (v: u32)
    requires
        at + 4 <= buf@.len(),
    ensures
        v == le_value(buf@.subrange(at as int, at + 4)),
{
    proof {
        lemma_le_value_4(buf@.subrange(at as int, at + 4));
    }
    buf[at] as u32 + buf[at + 1] as u32 * 0x100 + buf[at + 2] as u32 * 0x1_0000
        + buf[at + 3] as u32 * 0x100_0000
}

/// Append `x` as two bytes, most significant first.
pub fn put_be_u16(out: &mut Vec<u8>, x: u16)
    ensures
        final(out)@ == old(out)@ + be_bytes(x as nat, 2),
{
    let ghost before = out@;
    out.push((x / 0x100) as u8);
    out.push((x % 0x100) as u8);
    proof {
        reveal_with_fuel(be_bytes, 3);
        assert(out@ =~= before + be_bytes(x as nat, 2));
    }
}

/// Append `x` as four bytes, most significant first.
pub fn put_be_u32(out: &mut Vec<u8>, x: u32)
    ensures
        final(out)@ == old(out)@ + be_bytes(x as nat, 4),
{
    let ghost before = out@;
    out.push((x / 0x100_0000) as u8);
    out.push((x / 0x1_0000 % 0x100) as u8);
    out.push((x / 0x100 % 0x100) as u8);
    out.push((x % 0x100) as u8);
    proof {
        reveal_with_fuel(be_bytes, 5);
        assert(out@ =~= before + be_bytes(x as nat, 4));
    }
}

/// Append `x` as eight bytes, most significant first.
pub fn put_be_u64(out: &mut Vec<u8>, x: u64)
    ensures
        final(out)@ == old(out)@ + be_bytes(x as nat, 8),
{
    let ghost before = out@;
    let hi: u32 = (x / 0x1_0000_0000) as u32;
    let lo: u32 = (x % 0x1_0000_0000) as u32;
    put_be_u32(out, hi);
    put_be_u32(out, lo);
    proof {
        lemma_be_bytes_8(x as nat);
        assert(out@ =~= before + be_bytes(x as nat, 8));
    }
}

/// Append all of `src`.
pub fn put_slice(out: &mut Vec<u8>, src: &[u8])
    ensures
        final(out)@ == old(out)@ + src@,
{
    out.extend_from_slice(src);
    assert(out@ =~= old(out)@ + src@);
}

/// The bytes of `src` from `from` up to `to`, as a vector.
pub fn copy_range(src: &[u8], from: usize, to: usize) -> (out: Vec<u8>)
    requires
        from <= to <= src@.len(),
    ensures
        out@ == src@.subrange(from as int, to as int),
{
    let mut out: Vec<u8> = Vec::with_capacity(to - from);
    let part = vstd::slice::slice_subrange(src, from, to);
    out.extend_from_slice(part);
    assert(out@ =~= src@.subrange(from as int, to as int));
    out
}

/// The sixteen bytes at `at`.
pub fn read_16(src: &[u8], at: usize) -> (out: [u8; 16])
    requires
        at + 16 <= src@.len(),
    ensures
        out@ == src@.subrange(at as int, at + 16),
{
    assert(src.len() == src@.len());
    let mut out: [u8; 16] = [0u8; 16];
    let mut i: usize = 0;
    while i < 16
        invariant
            i <= 16,
            at + 16 <= src@.len(),
            src@.len() <= usize::MAX,
            out@.len() == 16,
            forall|j: int| 0 <= j < i ==> out@[j] == src@[at + j],
        decreases 16 - i,
    {
        out[i] = src[at + i];
        i += 1;
    }
    assert(out@ =~= src@.subrange(at as int, at + 16));
    out
}

/// A copy of `src`.
pub fn copy_bytes(src: &[u8]) -> (out: Vec<u8>)
    ensures
        out@ == src@,
{
    let mut out: Vec<u8> = Vec::with_capacity(src.len());
    out.extend_from_slice(src);
    assert(out@ =~= src@);
    out
}

/// Whether the two byte strings are the same.
pub fn same_bytes(a: &[u8], b: &[u8]) -> (r: bool)
    ensures
        r == (a@ == b@),
{
    if a.len() != b.len() {
        return false;
    }
    let mut i: usize = 0;
    while i < a.len()
        invariant
            i <= a@.len(),
            a@.len() == b@.len(),
            forall|j: int| 0 <= j < i ==> a@[j] == b@[j],
        decreases a@.len() - i,
    {
        if a[i] != b[i] {
            return false;
        }
        i += 1;
    }
    assert(a@ =~= b@);
    true
}

/// What stands in front stays where it is when more is put behind.
pub proof fn lemma_behind(s: Seq<u8>, more: Seq<u8>, at: int, n: int)
    requires
        0 <= at,
        0 <= n,
        at + n <= s.len(),
    ensures
        (s + more).subrange(at, at + n) == s.subrange(at, at + n),
{
    assert((s + more).subrange(at, at + n) =~= s.subrange(at, at + n));
}

} // verus!
