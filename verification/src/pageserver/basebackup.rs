//! Seeding a page store from a data directory: which files hold relations, and
//! the modifications that their blocks amount to.
//!
//! The `global/` and `base/<db>/` relation forks (main, free space map,
//! visibility map) are imported; segments and the init fork are not.

use vstd::prelude::*;

use crate::bytes::{be_bytes, copy_range, put_be_u32, put_slice};
use crate::common::lsn::Lsn;
use crate::common::page::{ForkNumber, PageKey, RelTag, PAGE_SIZE};
use crate::pageserver::page::{
    address_bytes, version_bytes, ModV, Modification, PageVersion, VersionV,
};
use crate::pageserver::repository::mods_view;
use crate::pageserver::waldecode::zeros;
use crate::text::{
    chars_of, decimal, digit_value, digits_round_trip, ends_with, is_digit_char,
    only_digits_are_read, parse_uint, read_uint, same_text, string_of,
};

verus! {

/// PostgreSQL's tablespace of the shared catalogs under `global/`.
pub const GLOBAL_SPC: u32 = 1664;

/// PostgreSQL's tablespace of the per-database relations under `base/`.
pub const DEFAULT_SPC: u32 = 1663;

/// How many characters stand before the last `_`, or -1.
pub open spec fn last_underscore(s: Seq<char>) -> int
    decreases s.len(),
{
    if s.len() == 0 {
        -1
    } else if s.last() == '_' {
        s.len() - 1
    } else {
        last_underscore(s.drop_last())
    }
}

/// The number and the fork that a relation file's name says: what stands before
/// `_fsm` or `_vm` at its end, or else the whole name, is the number.
pub open spec fn relfile_parts(name: Seq<char>) -> (Seq<char>, ForkNumber) {
    let p = last_underscore(name);
    if p >= 0 && name.skip(p + 1) == "fsm"@ {
        (name.take(p), ForkNumber::Fsm)
    } else if p >= 0 && name.skip(p + 1) == "vm"@ {
        (name.take(p), ForkNumber::VisibilityMap)
    } else {
        (name, ForkNumber::Main)
    }
}

/// The relation and fork that a file's name says; nothing where it is not a
/// relation file.
pub open spec fn relfile(name: Seq<char>) -> Option<(u32, ForkNumber)> {
    let (number, fork) = relfile_parts(name);
    match parse_uint(number, 10, u32::MAX as nat) {
        Ok(n) => Some((n as u32, fork)),
        Err(_) => None,
    }
}

/// Parse a relation file name into `(relfilenode, fork)`, or `None` if it is not
/// a relation file.
pub fn parse_relfile(name: &str) -> (r: Option<(u32, ForkNumber)>)
    ensures
        r == relfile(name@),
{
    let c = chars_of(name);
    let mut p: usize = c.len();
    assert(c@.take(p as int) =~= c@);
    while p > 0 && c[p - 1] != '_'
        invariant
            p <= c@.len(),
            last_underscore(c@) == last_underscore(c@.take(p as int)),
        decreases p,
    {
        assert(c@.take(p as int).drop_last() =~= c@.take(p - 1));
        assert(c@.take(p as int).last() == c@[p - 1]);
        p -= 1;
    }
    let ghost u = last_underscore(c@);
    assert(p == 0 ==> u == -1);
    assert(p > 0 ==> c@.take(p as int).last() == '_' && u == p - 1);
    let mut end: usize = c.len();
    let mut fork = ForkNumber::Main;
    if p > 0 {
        let tail = string_of(vstd::slice::slice_subrange(c.as_slice(), p, c.len()));
        assert(tail@ =~= c@.skip(u + 1));
        if same_text(tail.as_str(), "fsm") {
            fork = ForkNumber::Fsm;
            end = p - 1;
        } else if same_text(tail.as_str(), "vm") {
            fork = ForkNumber::VisibilityMap;
            end = p - 1;
        }
    }
    let number = vstd::slice::slice_subrange(c.as_slice(), 0, end);
    assert(number@ =~= relfile_parts(name@).0);
    match read_uint(number, 10, 0xFFFF_FFFF) {
        Ok(n) => Some((n as u32, fork)),
        Err(_) => None,
    }
}

/// How many pages a file of `n` bytes holds, the last one perhaps in part.
pub open spec fn page_count(n: int) -> int {
    (n + PAGE_SIZE - 1) / PAGE_SIZE as int
}

/// Page number `i` of a file, the last one filled up with zeros.
pub open spec fn file_page(data: Seq<u8>, i: int) -> Seq<u8> {
    let from = i * PAGE_SIZE;
    if from + PAGE_SIZE <= data.len() {
        data.subrange(from, from + PAGE_SIZE)
    } else {
        data.skip(from) + zeros(from + PAGE_SIZE - data.len())
    }
}

/// One full image for each page of a relation file, all at one position.
pub open spec fn file_mods(data: Seq<u8>, rel: RelTag, lsn: Lsn) -> Seq<ModV> {
    Seq::new(
        page_count(data.len() as int) as nat,
        |i: int|
            ModV {
                key: PageKey { rel, block: (i % 0x1_0000_0000) as u32 },
                lsn,
                version: VersionV::Image(file_page(data, i)),
            },
    )
}

/// The modifications that a relation file's pages amount to.
pub fn import_file(data: &[u8], rel: RelTag, lsn: Lsn) -> (mods: Vec<Modification>)
    ensures
        mods_view(mods@) == file_mods(data@, rel, lsn),
{
    let n: usize = data.len();
    let mut mods: Vec<Modification> = Vec::new();
    let mut at: usize = 0;
    let mut i: u64 = 0;
    while at < n
        invariant
            n == data@.len(),
            at <= n,
            at == i * PAGE_SIZE || (at == n && at <= i * PAGE_SIZE && (i - 1) * PAGE_SIZE < n),
            at < n ==> at == i * PAGE_SIZE,
            i <= page_count(n as int),
            i <= at,
            at == n ==> i == page_count(n as int),
            mods_view(mods@) == file_mods(data@, rel, lsn).take(i as int),
        decreases n - at,
    {
        let end: usize = if n - at >= PAGE_SIZE {
            at + PAGE_SIZE
        } else {
            n
        };
        let mut page: Vec<u8> = copy_range(data, at, end);
        let missing: usize = PAGE_SIZE - page.len();
        let mut pad: Vec<u8> = vec![0u8; missing];
        page.append(&mut pad);
        assert(page@ =~= file_page(data@, i as int));
        let ghost before = mods_view(mods@);
        let m = Modification {
            rel,
            block: (i % 0x1_0000_0000) as u32,
            lsn,
            version: PageVersion::Image(page),
        };
        let ghost mv = m@;
        mods.push(m);
        assert(mods_view(mods@) =~= before.push(mv));
        assert(mv == file_mods(data@, rel, lsn)[i as int]);
        assert(mods_view(mods@) =~= file_mods(data@, rel, lsn).take(i + 1));
        at = end;
        i += 1;
    }
    assert(mods_view(mods@) =~= file_mods(data@, rel, lsn));
    mods
}

/// A modification as it goes to the ingest endpoint: its length in four bytes,
/// and its body.
pub fn ingest_frame(m: &Modification) -> (r: Vec<u8>)
    requires
        !(m@.version is WalRecord),
    ensures
        ({
            let body = address_bytes(m@.key, m@.lsn) + version_bytes(m@.version);
            r@ == be_bytes(body.len() % 0x1_0000_0000, 4) + body
        }),
{
    let body = m.encode();
    let mut out: Vec<u8> = Vec::new();
    put_be_u32(&mut out, (body.len() as u64 % 0x1_0000_0000) as u32);
    put_slice(&mut out, body.as_slice());
    assert(out@ =~= be_bytes(body@.len() % 0x1_0000_0000, 4) + body@);
    out
}

/// The images, one behind the other.
pub open spec fn images(mods: Seq<ModV>) -> Seq<u8>
    decreases mods.len(),
{
    if mods.len() == 0 {
        Seq::empty()
    } else {
        images(mods.drop_last()) + (match mods.last().version {
            VersionV::Image(page) => page,
            _ => Seq::empty(),
        })
    }
}

proof fn lemma_images(data: Seq<u8>, rel: RelTag, lsn: Lsn, k: int)
    requires
        0 <= k <= page_count(data.len() as int),
    ensures
        ({
            let got = images(file_mods(data, rel, lsn).take(k));
            let n = k * PAGE_SIZE;
            &&& got.len() == n
            &&& forall|i: int|
                0 <= i < n ==> #[trigger] got[i] == (if i < data.len() {
                    data[i]
                } else {
                    0u8
                })
        }),
    decreases k,
{
    let mods = file_mods(data, rel, lsn);
    if k > 0 {
        lemma_images(data, rel, lsn, k - 1);
        let now = mods.take(k);
        let page = file_page(data, k - 1);
        let from = (k - 1) * PAGE_SIZE;
        assert(now.drop_last() =~= mods.take(k - 1));
        assert(now.last().version == VersionV::Image(page));
        assert(from < data.len());
        assert(page.len() == PAGE_SIZE);
        let got = images(now);
        assert forall|i: int| 0 <= i < k * PAGE_SIZE implies #[trigger] got[i] == (if i
            < data.len() {
            data[i]
        } else {
            0u8
        }) by {
            if i < from {
                assert(got[i] == images(mods.take(k - 1))[i]);
            } else {
                assert(got[i] == page[i - from]);
            }
        }
    }
}

/// An imported file is what was in it: its images, all of one page and at the given
/// position, are of blocks 0, 1, 2 and so on of the relation, and one behind the other
/// they are the file's bytes, followed by fewer zeros than a page has.
pub proof fn imported_images_are_the_file(data: Seq<u8>, rel: RelTag, lsn: Lsn)
    requires
        data.len() <= 0x1_0000_0000 * 8192,
    ensures
        ({
            let mods = file_mods(data, rel, lsn);
            let got = images(mods);
            &&& forall|i: int|
                0 <= i < mods.len() ==> (#[trigger] mods[i]).key.rel == rel && mods[i].key.block
                    == i && mods[i].lsn == lsn && (mods[i].version matches VersionV::Image(page)
                    && page.len() == 8192)
            &&& data.len() <= got.len() < data.len() + 8192
            &&& got.take(data.len() as int) == data
            &&& forall|i: int| data.len() <= i < got.len() ==> #[trigger] got[i] == 0u8
        }),
{
    let mods = file_mods(data, rel, lsn);
    let n = page_count(data.len() as int);
    lemma_images(data, rel, lsn, n);
    assert(mods.take(n) =~= mods);
    assert(images(mods).take(data.len() as int) =~= data);
    assert forall|i: int| 0 <= i < mods.len() implies (#[trigger] mods[i]).key.rel == rel
        && mods[i].key.block == i && mods[i].lsn == lsn && (
    mods[i].version matches VersionV::Image(page) && page.len() == 8192) by {
        assert(i * PAGE_SIZE < data.len());
        assert(file_page(data, i).len() == PAGE_SIZE);
    }
}

/// The last underscore stands where none follows.
proof fn lemma_last_underscore(s: Seq<char>, p: int)
    requires
        -1 <= p < s.len(),
        p >= 0 ==> s[p] == '_',
        forall|i: int| p < i < s.len() ==> s[i] != '_',
    ensures
        last_underscore(s) == p,
    decreases s.len(),
{
    if p < s.len() - 1 {
        lemma_last_underscore(s.drop_last(), p);
    }
}

/// The relation file with number `n` is called by the number in decimal digits, and its
/// free space map and visibility map have `_fsm` and `_vm` behind it.
pub proof fn relation_files_are_called_by_their_number(n: u32)
    ensures
        relfile(decimal(n as nat)) == Some((n, ForkNumber::Main)),
        relfile(decimal(n as nat) + "_fsm"@) == Some((n, ForkNumber::Fsm)),
        relfile(decimal(n as nat) + "_vm"@) == Some((n, ForkNumber::VisibilityMap)),
{
    let d = decimal(n as nat);
    digits_round_trip(n as nat, 10, false, u32::MAX as nat);
    assert forall|i: int| 0 <= i < d.len() implies d[i] != '_' by {
        assert(is_digit_char(d[i]));
    }
    reveal_strlit("_fsm");
    reveal_strlit("_vm");
    reveal_strlit("fsm");
    reveal_strlit("vm");
    let k = d.len() as int;
    lemma_last_underscore(d, -1);
    let f = d + "_fsm"@;
    assert(f[k] == '_' && f[k + 1] == 'f' && f[k + 2] == 's' && f[k + 3] == 'm');
    lemma_last_underscore(f, k);
    assert(f.skip(k + 1) =~= "fsm"@);
    assert(f.take(k) =~= d);
    let v = d + "_vm"@;
    assert(v[k] == '_' && v[k + 1] == 'v' && v[k + 2] == 'm');
    lemma_last_underscore(v, k);
    assert(v.skip(k + 1) =~= "vm"@);
    assert(v.skip(k + 1).len() == 2 && "fsm"@.len() == 3);
    assert(v.take(k) =~= d);
}

/// A name that ends in neither `_fsm` nor `_vm` and holds something else than digits
/// behind its first character is no relation file's: so a segment's and the init fork's.
pub proof fn other_files_are_passed_over(name: Seq<char>, i: int)
    requires
        0 < i < name.len(),
        digit_value(name[i], 10) is None,
        !ends_with(name, "_fsm"@),
        !ends_with(name, "_vm"@),
    ensures
        relfile(name) is None,
{
    reveal_strlit("_fsm");
    reveal_strlit("_vm");
    reveal_strlit("fsm");
    reveal_strlit("vm");
    let p = last_underscore(name);
    lemma_last_underscore_is_one(name);
    if p >= 0 && name.skip(p + 1) == "fsm"@ {
        let t = name.skip(p + 1);
        assert(t[0] == 'f' && t[1] == 's' && t[2] == 'm');
        assert(t.len() == 3 && name.len() == p + 4);
        assert(t[0] == name[p + 1] && t[1] == name[p + 2] && t[2] == name[p + 3]);
        assert(name.skip(p) =~= "_fsm"@);
    }
    if p >= 0 && name.skip(p + 1) == "vm"@ {
        let t = name.skip(p + 1);
        assert(t[0] == 'v' && t[1] == 'm');
        assert("vm"@.len() == 2);
        assert(t.len() == name.len() - p - 1);
        assert(t[0] == name[p + 1] && t[1] == name[p + 2]);
        assert(name.skip(p) =~= "_vm"@);
    }
    only_digits_are_read(name, 10, u32::MAX as nat, i);
    only_digits_are_read(name.skip(1), 10, u32::MAX as nat, i - 1);
}

proof fn lemma_last_underscore_is_one(s: Seq<char>)
    ensures
        -1 <= last_underscore(s) < s.len(),
        last_underscore(s) >= 0 ==> s[last_underscore(s)] == '_',
    decreases s.len(),
{
    if s.len() > 0 && s.last() != '_' {
        lemma_last_underscore_is_one(s.drop_last());
    }
}

} // verus!
