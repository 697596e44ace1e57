//! WAL records as PostgreSQL lays them out, and what the decoder makes of them.
//!
//! A record is a fixed header of 24 bytes; a header for each block, with the
//! image's header inside; the optional markers of a replication origin and of a
//! top-level transaction; the length of the main data; then the blocks' images and
//! data, and the main data. Numbers stand least significant byte first.

use vstd::prelude::*;

use crate::bytes::{
    le_bytes, le_value, lemma_le_bytes_len, lemma_le_value_2, lemma_le_value_4, lemma_pow256,
    lemma_stands_le, lemma_stands_split, stands_at,
};
use crate::common::lsn::Lsn;
use crate::common::page::{ForkNumber, PageKey, RelTag};
use crate::pageserver::page::{PageErrorV, VersionV};
use crate::pageserver::reads::{
    block_key, held_once, lemma_held_after, lemma_held_once_comes_last, not_held,
};
use crate::pageserver::repository::{
    history, ingested, native_page, record_ingested, record_mods, RepoV,
};
use crate::pageserver::waldecode::{
    aligned, block_body, block_header, collect, collected, data_section, decoded, drained,
    good_headers, header_len, header_section, image_header, implied_hole, laid_out,
    laid_out_record_is_polled, le16, le32, lemma_collect, lemma_polled, locator, next_page,
    optional_image, payload_start, polled, restored, BlockV, BlockWork, Collected, Compression,
    ImageMeta, ImageV, Locator, Polled, RecordV, StreamV, WalDecodeErrorV, SIZE_OF_XLOG_RECORD,
    XLOG_BLCKSZ, XLOG_PAGE_MAGIC_PG16,
};
use crate::pageserver::walredo::{from_last_base, last_base, latest_image_is_the_page};

verus! {

/// A block as a record carries it.
pub struct WrittenBlock {
    /// The block's id in the record.
    pub id: u8,
    /// The relation is left out, being that of the block before.
    pub same_rel: bool,
    pub block: BlockV,
}

/// A record as PostgreSQL writes it.
pub struct WrittenRecord {
    pub xid: u32,
    /// The position of the record before.
    pub prev: Seq<u8>,
    pub info: u8,
    pub rmid: u8,
    pub padding: Seq<u8>,
    pub crc: Seq<u8>,
    pub blocks: Seq<WrittenBlock>,
    pub origin: Option<Seq<u8>>,
    pub toplevel_xid: Option<Seq<u8>>,
    pub main_data: Seq<u8>,
    /// The length of the main data is written in four bytes, not one.
    pub long: bool,
}

/// 1 or 0.
pub open spec fn bit(b: bool) -> int {
    if b {
        1
    } else {
        0
    }
}

/// PostgreSQL's number of a fork.
pub open spec fn fork_bits(f: ForkNumber) -> int {
    match f {
        ForkNumber::Main => 0,
        ForkNumber::Fsm => 1,
        ForkNumber::VisibilityMap => 2,
        ForkNumber::Init => 3,
    }
}

/// A block header's flags: the fork in the low four bits, then whether there is an
/// image, whether there is data, whether redo re-initializes the page, and whether the
/// relation is left out.
pub open spec fn flags_of(b: BlockV, same_rel: bool) -> u8 {
    (fork_bits(b.rel.fork) + 16 * bit(b.image is Some) + 32 * bit(b.data.len() > 0) + 64 * bit(
        b.will_init,
    ) + 128 * bit(same_rel)) as u8
}

/// An image's info bits: whether a hole was cut out, whether redo installs the image,
/// and the compression.
pub open spec fn info_of(i: ImageV) -> u8 {
    (bit(i.hole_length > 0) + 2 * bit(i.apply) + match i.compression {
        Compression::Verbatim => 0int,
        Compression::Pglz => 4,
        Compression::Lz4 => 8,
        Compression::Zstd => 16,
    }) as u8
}

/// An image's header: how many bytes are stored, where the hole is, the info bits, and
/// the hole's length where it does not follow from the number of bytes.
pub open spec fn image_header_bytes(i: ImageV) -> Seq<u8> {
    le_bytes(i.bytes.len(), 2) + le_bytes(i.hole_offset as nat, 2) + seq![info_of(i)] + (
    if i.hole_length > 0 && i.compression != Compression::Verbatim {
        le_bytes(i.hole_length as nat, 2)
    } else {
        Seq::empty()
    })
}

/// A relation: tablespace, database, relation number.
pub open spec fn locator_bytes(r: RelTag) -> Seq<u8> {
    le_bytes(r.spc_node as nat, 4) + le_bytes(r.db_node as nat, 4) + le_bytes(
        r.rel_node as nat,
        4,
    )
}

/// A block's header behind its id.
pub open spec fn block_header_bytes(b: BlockV, same_rel: bool) -> Seq<u8> {
    seq![flags_of(b, same_rel)] + le_bytes(b.data.len(), 2) + (match b.image {
        Some(i) => image_header_bytes(i),
        None => Seq::empty(),
    }) + (if same_rel {
        Seq::empty()
    } else {
        locator_bytes(b.rel)
    }) + le_bytes(b.blkno as nat, 4)
}

/// The blocks' headers one behind the other.
pub open spec fn headers_bytes(bs: Seq<WrittenBlock>) -> Seq<u8>
    decreases bs.len(),
{
    if bs.len() == 0 {
        Seq::empty()
    } else {
        headers_bytes(bs.drop_last()) + (seq![bs.last().id] + block_header_bytes(
            bs.last().block,
            bs.last().same_rel,
        ))
    }
}

/// A block's image and data.
pub open spec fn block_body_bytes(b: BlockV) -> Seq<u8> {
    (match b.image {
        Some(i) => i.bytes,
        None => Seq::empty(),
    }) + b.data
}

/// The blocks' images and data one behind the other.
pub open spec fn bodies_bytes(bs: Seq<WrittenBlock>) -> Seq<u8>
    decreases bs.len(),
{
    if bs.len() == 0 {
        Seq::empty()
    } else {
        bodies_bytes(bs.drop_last()) + block_body_bytes(bs.last().block)
    }
}

/// A marker and what it marks, where there is any.
pub open spec fn marked(marker: u8, x: Option<Seq<u8>>) -> Seq<u8> {
    match x {
        Some(b) => seq![marker] + b,
        None => Seq::empty(),
    }
}

/// The length of the main data.
pub open spec fn main_header_bytes(n: nat, long: bool) -> Seq<u8> {
    if long {
        seq![254u8] + le_bytes(n, 4)
    } else {
        seq![255u8, n as u8]
    }
}

/// What stands behind the fixed header.
pub open spec fn record_body_bytes(w: WrittenRecord) -> Seq<u8> {
    headers_bytes(w.blocks) + marked(253, w.origin) + marked(252, w.toplevel_xid)
        + main_header_bytes(w.main_data.len(), w.long) + bodies_bytes(w.blocks) + w.main_data
}

/// The record's bytes.
pub open spec fn record_bytes(w: WrittenRecord) -> Seq<u8> {
    le_bytes(24 + record_body_bytes(w).len(), 4) + le_bytes(w.xid as nat, 4) + w.prev + seq![
        w.info,
        w.rmid,
    ] + w.padding + w.crc + record_body_bytes(w)
}

/// What of an image a record can say: fewer than 64 KiB, and of a hole in an image that
/// is stored verbatim, that it fills the image up to a page.
pub open spec fn sound_image(i: ImageV) -> bool {
    &&& i.bytes.len() < 0x1_0000
    &&& i.compression == Compression::Verbatim && i.hole_length > 0 ==> i.bytes.len()
        + i.hole_length == 8192
}

/// Block number `i` can be written so: its relation is left out only where it is that of
/// the block before.
pub open spec fn sound_block(bs: Seq<WrittenBlock>, i: int) -> bool {
    let b = bs[i].block;
    &&& bs[i].id <= 32
    &&& b.data.len() < 0x1_0000
    &&& b.image matches Some(m) ==> sound_image(m)
    &&& bs[i].same_rel ==> i > 0 && {
        let before = bs[i - 1].block.rel;
        b.rel.spc_node == before.spc_node && b.rel.db_node == before.db_node && b.rel.rel_node
            == before.rel_node
    }
}

/// The record can be written so.
pub open spec fn sound_record(w: WrittenRecord) -> bool {
    &&& w.prev.len() == 8
    &&& w.padding.len() == 2
    &&& w.crc.len() == 4
    &&& forall|i: int| 0 <= i < w.blocks.len() ==> #[trigger] sound_block(w.blocks, i)
    &&& w.origin matches Some(b) ==> b.len() == 2
    &&& w.toplevel_xid matches Some(b) ==> b.len() == 8
    &&& !w.long ==> w.main_data.len() < 256
    &&& record_bytes(w).len() < 0x1_0000_0000
}

proof fn lemma_flag_bits(f: u8, k: u8, i: u8, d: u8, w: u8, s: u8)
    by (bit_vector)
    requires
        k <= 3,
        i <= 1,
        d <= 1,
        w <= 1,
        s <= 1,
        f == k + 16 * i + 32 * d + 64 * w + 128 * s,
    ensures
        f & 0x0F == k,
        (f & 0x10 != 0) == (i == 1),
        (f & 0x20 != 0) == (d == 1),
        (f & 0x40 != 0) == (w == 1),
        (f & 0x80 != 0) == (s == 1),
{
}

proof fn lemma_info_bits(f: u8, h: u8, a: u8, c: u8)
    by (bit_vector)
    requires
        h <= 1,
        a <= 1,
        c == 0 || c == 4 || c == 8 || c == 16,
        f == h + 2 * a + c,
    ensures
        (f & 0x01 != 0) == (h == 1),
        (f & 0x02 != 0) == (a == 1),
        (f & 0x04 != 0) == (c == 4),
        (f & 0x08 != 0) == (c == 8),
        (f & 0x10 != 0) == (c == 16),
        (f & 0x1C != 0) == (c != 0),
{
}

/// The header of an image, as it is read.
spec fn meta_of(i: ImageV) -> ImageMeta {
    ImageMeta {
        bimg_len: i.bytes.len() as usize,
        hole_offset: i.hole_offset,
        hole_length: i.hole_length,
        compression: i.compression,
        apply: i.apply,
    }
}

proof fn lemma_image_header(s: Seq<u8>, at: int, i: ImageV)
    requires
        sound_image(i),
        stands_at(s, at, image_header_bytes(i)),
    ensures
        image_header(s, at) == Ok::<_, WalDecodeErrorV>(
            (meta_of(i), at + image_header_bytes(i).len()),
        ),
{
    let a = le_bytes(i.bytes.len(), 2);
    let b = le_bytes(i.hole_offset as nat, 2);
    let c = seq![info_of(i)];
    let explicit = i.hole_length > 0 && i.compression != Compression::Verbatim;
    let d = if explicit {
        le_bytes(i.hole_length as nat, 2)
    } else {
        Seq::empty()
    };
    lemma_le_bytes_len(i.bytes.len(), 2);
    lemma_le_bytes_len(i.hole_offset as nat, 2);
    lemma_le_bytes_len(i.hole_length as nat, 2);
    lemma_pow256();
    lemma_stands_split(s, at, a + b + c, d);
    lemma_stands_split(s, at, a + b, c);
    lemma_stands_split(s, at, a, b);
    lemma_stands_le(s, at, i.bytes.len(), 2);
    lemma_stands_le(s, at + 2, i.hole_offset as nat, 2);
    if explicit {
        lemma_stands_le(s, at + 5, i.hole_length as nat, 2);
    }
    assert(s[at + 4] == s.subrange(at + 4, at + 5)[0]);
    let code: u8 = match i.compression {
        Compression::Verbatim => 0,
        Compression::Pglz => 4,
        Compression::Lz4 => 8,
        Compression::Zstd => 16,
    };
    lemma_info_bits(info_of(i), bit(i.hole_length > 0) as u8, bit(i.apply) as u8, code);
}

/// The header of a block, as it is read.
spec fn work_of(b: BlockV) -> BlockWork {
    BlockWork {
        rel: b.rel,
        blkno: b.blkno,
        will_init: b.will_init,
        has_data: b.data.len() > 0,
        data_len: b.data.len() as usize,
        image_meta: match b.image {
            Some(i) => Some(meta_of(i)),
            None => None,
        },
    }
}

spec fn locator_of(r: RelTag) -> Locator {
    (r.spc_node, r.db_node, r.rel_node)
}

proof fn lemma_block_header(
    s: Seq<u8>,
    at: int,
    b: BlockV,
    same_rel: bool,
    last: Option<Locator>,
)
    requires
        b.data.len() < 0x1_0000,
        b.image matches Some(m) ==> sound_image(m),
        same_rel ==> last == Some(locator_of(b.rel)),
        stands_at(s, at, block_header_bytes(b, same_rel)),
    ensures
        block_header(s, at, last) == Ok::<_, WalDecodeErrorV>(
            (work_of(b), locator_of(b.rel), at + block_header_bytes(b, same_rel).len()),
        ),
{
    let f = seq![flags_of(b, same_rel)];
    let n = le_bytes(b.data.len(), 2);
    let i = match b.image {
        Some(i) => image_header_bytes(i),
        None => Seq::empty(),
    };
    let l = if same_rel {
        Seq::empty()
    } else {
        locator_bytes(b.rel)
    };
    let k = le_bytes(b.blkno as nat, 4);
    lemma_le_bytes_len(b.data.len(), 2);
    lemma_le_bytes_len(b.blkno as nat, 4);
    lemma_pow256();
    lemma_stands_split(s, at, f + n + i + l, k);
    lemma_stands_split(s, at, f + n + i, l);
    lemma_stands_split(s, at, f + n, i);
    lemma_stands_split(s, at, f, n);
    assert(s[at] == s.subrange(at, at + 1)[0]);
    lemma_stands_le(s, at + 1, b.data.len(), 2);
    let at2 = at + 3 + i.len();
    let at3 = at2 + l.len();
    lemma_stands_le(s, at3, b.blkno as nat, 4);
    lemma_flag_bits(
        flags_of(b, same_rel),
        fork_bits(b.rel.fork) as u8,
        bit(b.image is Some) as u8,
        bit(b.data.len() > 0) as u8,
        bit(b.will_init) as u8,
        bit(same_rel) as u8,
    );
    if let Some(m) = b.image {
        lemma_image_header(s, at + 3, m);
    }
    if !same_rel {
        let x = le_bytes(b.rel.spc_node as nat, 4);
        let y = le_bytes(b.rel.db_node as nat, 4);
        let z = le_bytes(b.rel.rel_node as nat, 4);
        lemma_le_bytes_len(b.rel.spc_node as nat, 4);
        lemma_le_bytes_len(b.rel.db_node as nat, 4);
        lemma_le_bytes_len(b.rel.rel_node as nat, 4);
        lemma_stands_split(s, at2, x + y, z);
        lemma_stands_split(s, at2, x, y);
        lemma_stands_le(s, at2, b.rel.spc_node as nat, 4);
        lemma_stands_le(s, at2 + 4, b.rel.db_node as nat, 4);
        lemma_stands_le(s, at2 + 8, b.rel.rel_node as nat, 4);
    }
    assert(optional_image(s, at + 3, b.image is Some) == Ok::<_, WalDecodeErrorV>(
        (work_of(b).image_meta, at2),
    ));
    assert(locator(s, at2, same_rel, last) == Ok::<_, WalDecodeErrorV>((locator_of(b.rel), at3)));
}

spec fn works_of(bs: Seq<WrittenBlock>) -> Seq<BlockWork> {
    Seq::new(bs.len(), |i: int| work_of(bs[i].block))
}

spec fn last_locator(bs: Seq<WrittenBlock>) -> Option<Locator> {
    if bs.len() == 0 {
        None
    } else {
        Some(locator_of(bs.last().block.rel))
    }
}

/// A block whose header stands at `at` is read there.
proof fn lemma_header_step(
    s: Seq<u8>,
    at: int,
    b: WrittenBlock,
    last: Option<Locator>,
    seen: Seq<BlockWork>,
)
    requires
        0 <= at,
        b.id <= 32,
        b.block.data.len() < 0x1_0000,
        b.block.image matches Some(m) ==> sound_image(m),
        b.same_rel ==> last == Some(locator_of(b.block.rel)),
        stands_at(s, at, seq![b.id] + block_header_bytes(b.block, b.same_rel)),
    ensures
        header_section(s, at, last, seen) == header_section(
            s,
            at + (seq![b.id] + block_header_bytes(b.block, b.same_rel)).len(),
            Some(locator_of(b.block.rel)),
            seen.push(work_of(b.block)),
        ),
{
    let id = seq![b.id];
    let h = block_header_bytes(b.block, b.same_rel);
    lemma_stands_split(s, at, id, h);
    assert(s[at] == s.subrange(at, at + 1)[0]);
    lemma_block_header(s, at + 1, b.block, b.same_rel, last);
}

#[verifier::rlimit(30)]
proof fn lemma_headers(s: Seq<u8>, at: int, bs: Seq<WrittenBlock>)
    requires
        0 <= at,
        forall|i: int| 0 <= i < bs.len() ==> #[trigger] sound_block(bs, i),
        stands_at(s, at, headers_bytes(bs)),
    ensures
        header_section(s, at, None, Seq::empty()) == header_section(
            s,
            at + headers_bytes(bs).len(),
            last_locator(bs),
            works_of(bs),
        ),
    decreases bs.len(),
{
    if bs.len() == 0 {
        assert(works_of(bs) =~= Seq::empty());
    } else {
        let front = bs.drop_last();
        let b = bs.last();
        let mid = at + headers_bytes(front).len();
        let n = bs.len() - 1;
        assert forall|i: int| 0 <= i < front.len() implies #[trigger] sound_block(front, i) by {
            assert(sound_block(bs, i));
            assert(front[i] == bs[i]);
            assert(i > 0 ==> front[i - 1] == bs[i - 1]);
        }
        assert(sound_block(bs, n));
        lemma_stands_split(
            s,
            at,
            headers_bytes(front),
            seq![b.id] + block_header_bytes(b.block, b.same_rel),
        );
        lemma_headers(s, at, front);
        if b.same_rel {
            assert(front.last() == bs[n - 1]);
        }
        lemma_header_step(s, mid, b, last_locator(front), works_of(front));
        assert(works_of(front).push(work_of(b.block)) =~= works_of(bs));
    }
}

/// What each block of a list is.
pub open spec fn blocks_of(bs: Seq<WrittenBlock>) -> Seq<BlockV> {
    Seq::new(bs.len(), |i: int| bs[i].block)
}

proof fn lemma_bodies(s: Seq<u8>, at: int, bs: Seq<WrittenBlock>, k: nat)
    requires
        k <= bs.len(),
        forall|i: int| 0 <= i < bs.len() ==> #[trigger] sound_block(bs, i),
        stands_at(s, at, bodies_bytes(bs.take(k as int))),
    ensures
        data_section(s, at, works_of(bs), 0, Seq::empty()) == data_section(
            s,
            at + bodies_bytes(bs.take(k as int)).len(),
            works_of(bs),
            k as int,
            blocks_of(bs.take(k as int)),
        ),
    decreases k,
{
    if k == 0 {
        assert(blocks_of(bs.take(0)) =~= Seq::empty());
    } else {
        let now = bs.take(k as int);
        let front = bs.take(k - 1);
        assert(now.drop_last() =~= front);
        let b = bs[k - 1].block;
        assert(now.last().block == b);
        assert(sound_block(bs, k - 1));
        let mid = at + bodies_bytes(front).len();
        lemma_stands_split(s, at, bodies_bytes(front), block_body_bytes(b));
        lemma_bodies(s, at, bs, (k - 1) as nat);
        let img = match b.image {
            Some(i) => i.bytes,
            None => Seq::empty(),
        };
        lemma_stands_split(s, mid, img, b.data);
        assert(works_of(bs)[k - 1] == work_of(b));
        let read = block_body(s, mid, work_of(b));
        assert(read is Ok);
        assert(read->Ok_0.0.data =~= b.data);
        if let Some(i) = b.image {
            assert(s.subrange(mid, mid + i.bytes.len()) =~= i.bytes);
            assert(read->Ok_0.0.image == Some(i));
        }
        assert(read->Ok_0 == (b, mid + block_body_bytes(b).len()));
        assert(blocks_of(front).push(b) =~= blocks_of(now));
    }
}

/// The optional markers and the length of the main data.
proof fn lemma_markers(
    s: Seq<u8>,
    at: int,
    w: WrittenRecord,
    last: Option<Locator>,
    seen: Seq<BlockWork>,
)
    requires
        0 <= at,
        sound_record(w),
        w.main_data.len() < 0x1_0000_0000,
        stands_at(
            s,
            at,
            marked(253, w.origin) + marked(252, w.toplevel_xid) + main_header_bytes(
                w.main_data.len(),
                w.long,
            ),
        ),
    ensures
        header_section(s, at, last, seen) == Ok::<_, WalDecodeErrorV>(
            (
                seen,
                w.main_data.len() as int,
                at + marked(253, w.origin).len() + marked(252, w.toplevel_xid).len()
                    + main_header_bytes(w.main_data.len(), w.long).len(),
            ),
        ),
{
    let o = marked(253, w.origin);
    let x = marked(252, w.toplevel_xid);
    let m = main_header_bytes(w.main_data.len(), w.long);
    lemma_stands_split(s, at, o + x, m);
    lemma_stands_split(s, at, o, x);
    let at2 = at + o.len();
    let at3 = at2 + x.len();
    lemma_pow256();
    lemma_le_bytes_len(w.main_data.len(), 4);
    if w.long {
        lemma_stands_split(s, at3, seq![254u8], le_bytes(w.main_data.len(), 4));
        lemma_stands_le(s, at3 + 1, w.main_data.len(), 4);
        assert(s[at3] == s.subrange(at3, at3 + 1)[0]);
    } else {
        let both = s.subrange(at3, at3 + 2);
        assert(both == m);
        assert(s[at3] == both[0] && s[at3 + 1] == both[1]);
    }
    assert(header_section(s, at3, last, seen) == Ok::<_, WalDecodeErrorV>(
        (seen, w.main_data.len() as int, at3 + m.len()),
    ));
    if let Some(b) = w.toplevel_xid {
        lemma_stands_split(s, at2, seq![252u8], b);
        assert(s[at2] == s.subrange(at2, at2 + 1)[0]);
    }
    assert(header_section(s, at2, last, seen) == header_section(s, at3, last, seen));
    if let Some(b) = w.origin {
        lemma_stands_split(s, at, seq![253u8], b);
        assert(s[at] == s.subrange(at, at + 1)[0]);
    }
}

/// The fixed header, and where the rest starts.
proof fn lemma_fixed_header(w: WrittenRecord)
    requires
        sound_record(w),
    ensures
        ({
            let s = record_bytes(w);
            &&& s.len() == 24 + record_body_bytes(w).len()
            &&& le32(s, 0) == s.len()
            &&& le32(s, 4) == w.xid
            &&& s[16] == w.info
            &&& s[17] == w.rmid
            &&& stands_at(s, 24, record_body_bytes(w))
        }),
{
    let s = record_bytes(w);
    let body = record_body_bytes(w);
    let a = le_bytes(24 + body.len(), 4);
    let b = le_bytes(w.xid as nat, 4);
    let c = w.prev;
    let d = seq![w.info, w.rmid];
    lemma_le_bytes_len(24 + body.len(), 4);
    lemma_le_bytes_len(w.xid as nat, 4);
    lemma_pow256();
    assert(s.len() == 24 + body.len());
    assert(s.subrange(0, s.len() as int) =~= s);
    assert(stands_at(s, 0, s));
    lemma_stands_split(s, 0, a + b + c + d + w.padding + w.crc, body);
    lemma_stands_split(s, 0, a + b + c + d + w.padding, w.crc);
    lemma_stands_split(s, 0, a + b + c + d, w.padding);
    lemma_stands_split(s, 0, a + b + c, d);
    lemma_stands_split(s, 0, a + b, c);
    lemma_stands_split(s, 0, a, b);
    lemma_stands_le(s, 0, 24 + body.len(), 4);
    lemma_stands_le(s, 4, w.xid as nat, 4);
    let pair = s.subrange(16, 18);
    assert(pair == d);
    assert(s[16] == pair[0] && s[17] == pair[1]);
}

/// Where the markers start.
spec fn main_header_at(w: WrittenRecord) -> int {
    24 + headers_bytes(w.blocks).len() as int
}

/// Where the blocks' images and data start.
spec fn bodies_at(w: WrittenRecord) -> int {
    main_header_at(w) + marked(253, w.origin).len() + marked(252, w.toplevel_xid).len()
        + main_header_bytes(w.main_data.len(), w.long).len()
}

/// Where the parts of a record stand.
proof fn lemma_body_parts(s: Seq<u8>, w: WrittenRecord)
    requires
        stands_at(s, 24, record_body_bytes(w)),
        s.len() == 24 + record_body_bytes(w).len(),
    ensures
        stands_at(s, 24, headers_bytes(w.blocks)),
        stands_at(
            s,
            main_header_at(w),
            marked(253, w.origin) + marked(252, w.toplevel_xid) + main_header_bytes(
                w.main_data.len(),
                w.long,
            ),
        ),
        stands_at(s, bodies_at(w), bodies_bytes(w.blocks)),
        stands_at(s, bodies_at(w) + bodies_bytes(w.blocks).len(), w.main_data),
        w.main_data.len() <= s.len(),
{
    let h = headers_bytes(w.blocks);
    let o = marked(253, w.origin);
    let x = marked(252, w.toplevel_xid);
    let m = main_header_bytes(w.main_data.len(), w.long);
    let p = bodies_bytes(w.blocks);
    lemma_stands_split(s, 24, h + o + x + m + p, w.main_data);
    lemma_stands_split(s, 24, h + o + x + m, p);
    assert(h + o + x + m =~= h + (o + x + m));
    lemma_stands_split(s, 24, h, o + x + m);
}

/// A record that PostgreSQL writes is read back: its transaction, resource manager, info
/// bits and main data, and its blocks in order, each with the tablespace, database,
/// relation, fork and block number that were written, its flag, image and data. Where a
/// block's relation was left out, it has that of the block before.
pub proof fn written_records_are_read_back(lsn: Lsn, w: WrittenRecord)
    requires
        sound_record(w),
    ensures
        decoded(lsn, record_bytes(w)) == Ok::<RecordV, WalDecodeErrorV>(
            RecordV {
                lsn,
                rmid: w.rmid,
                info: w.info,
                xid: w.xid,
                main_data: w.main_data,
                blocks: blocks_of(w.blocks),
            },
        ),
{
    let s = record_bytes(w);
    lemma_fixed_header(w);
    lemma_body_parts(s, w);
    let work = works_of(w.blocks);
    let at = main_header_at(w);
    let at2 = bodies_at(w);
    let at3 = at2 + bodies_bytes(w.blocks).len();
    assert(header_section(s, 24, None, Seq::empty()) == Ok::<_, WalDecodeErrorV>(
        (work, w.main_data.len() as int, at2),
    )) by {
        lemma_headers(s, 24, w.blocks);
        lemma_markers(s, at, w, last_locator(w.blocks), work);
    }
    assert(data_section(s, at2, work, 0, Seq::empty()) == Ok::<_, WalDecodeErrorV>(
        (blocks_of(w.blocks), at3),
    )) by {
        let all = w.blocks.take(w.blocks.len() as int);
        assert(all =~= w.blocks);
        lemma_bodies(s, at2, w.blocks, w.blocks.len());
    }
    assert(at3 + w.main_data.len() <= s.len());
    assert(s.subrange(at3, at3 + w.main_data.len()) == w.main_data);
}

/// An image stands for a page exactly where it is stored verbatim, its hole lies within a
/// page, and the stored bytes fill the page up. The page then is the stored bytes with
/// zeros where the hole was; a compressed image never stands for a page.
pub proof fn restored_pages_are_the_stored_bytes_around_the_hole(i: ImageV)
    ensures
        restored(i) is Ok <==> {
            &&& i.compression == Compression::Verbatim
            &&& i.hole_length > 0 ==> i.hole_offset + i.hole_length <= 8192
            &&& i.bytes.len() + i.hole_length == 8192
        },
        restored(i) matches Ok(page) ==> {
            &&& page.len() == 8192
            &&& i.hole_length == 0 ==> page == i.bytes
            &&& i.hole_length > 0 ==> forall|k: int|
                0 <= k < 8192 ==> #[trigger] page[k] == (if k < i.hole_offset {
                    i.bytes[k]
                } else if k < i.hole_offset + i.hole_length {
                    0u8
                } else {
                    i.bytes[k - i.hole_length]
                })
        },
{
}

/// What an ingested record leaves of each page that it touches: the page's image, where
/// the record carries one that stands for a page, and else the record itself, marked as
/// re-initializing the page exactly where the block's flag says so. It is the last version
/// of the page as of the record's position. With an image the page is read; with the flag
/// there is a start to rebuild the page from, so it is never unknown.
pub proof fn ingested_records_keep_every_change(v: RepoV, lsn: Lsn, w: WrittenRecord, i: int)
    requires
        sound_record(w),
        0 <= i < w.blocks.len(),
        not_held(v, (block_key(w.blocks[i].block), lsn)),
        forall|j: int|
            0 <= j < w.blocks.len() && j != i ==> block_key((#[trigger] w.blocks[j]).block)
                != block_key(w.blocks[i].block),
    ensures
        record_ingested(v, lsn, record_bytes(w)) matches Ok(now) && {
            let b = w.blocks[i].block;
            let key = PageKey { rel: b.rel, block: b.blkno };
            let page = if b.image is Some && restored(b.image->0) is Ok {
                Some(restored(b.image->0)->Ok_0)
            } else {
                None
            };
            let version = match page {
                Some(p) => VersionV::Image(p),
                None => VersionV::WalRecord { will_init: b.will_init, rec: record_bytes(w) },
            };
            &&& held_once(now, (key, lsn), version)
            &&& history(now, key, lsn, None).len() > 0
            &&& history(now, key, lsn, None).last() == (lsn, version)
            &&& page matches Some(p) ==> native_page(now, key, lsn, None) == Ok::<
                Option<Seq<u8>>,
                PageErrorV,
            >(Some(p))
            &&& page is None && b.will_init ==> {
                &&& from_last_base(history(now, key, lsn, None)) == seq![(lsn, version)]
                &&& native_page(now, key, lsn, None) is Err
            }
        },
{
    let raw = record_bytes(w);
    written_records_are_read_back(lsn, w);
    let d = decoded(lsn, raw)->Ok_0;
    let mods = record_mods(d, raw);
    let b = w.blocks[i].block;
    let key = block_key(b);
    assert(mods[i].key == key && mods[i].lsn == lsn);
    assert forall|j: int| 0 <= j < mods.len() && j != i implies ((#[trigger] mods[j]).key, mods[j].lsn)
        != (mods[i].key, mods[i].lsn) by {
        assert(block_key(w.blocks[j].block) != key);
    }
    let now = ingested(v, mods);
    lemma_held_after(v, mods, i);
    lemma_held_once_comes_last(now, key, lsn, mods[i].version);
    let h = history(now, key, lsn, None);
    if b.image is Some && restored(b.image->0) is Ok {
        latest_image_is_the_page(h, restored(b.image->0)->Ok_0);
    } else if b.will_init {
        assert(last_base(h) == h.len() - 1);
        assert(h.skip(h.len() - 1) =~= seq![h.last()]);
    }
}

/// Where page headers stand and how long they are: one in front of every page of 8 KiB,
/// of 40 bytes on the first page of a segment and of 24 on the others.
pub proof fn page_headers_are_those_of_postgres(seg: int, lsn: int)
    ensures
        header_len(seg, lsn) == if lsn % seg == 0 {
            40int
        } else {
            24
        },
        XLOG_BLCKSZ == 8192,
        XLOG_PAGE_MAGIC_PG16 == 0xD113,
        SIZE_OF_XLOG_RECORD == 24,
{
}

/// The bytes from a position to the next multiple of eight.
pub open spec fn padding_behind(lsn: int) -> int {
    (8 - lsn % 8) % 8
}

/// Records one behind the other in WAL pages, each from a multiple of eight on; `header`
/// gives the page headers, and `pad` what stands between a record and the next multiple.
pub open spec fn written_wal(
    seg: int,
    header: spec_fn(int) -> Seq<u8>,
    pad: spec_fn(int) -> Seq<u8>,
    lsn: int,
    records: Seq<Seq<u8>>,
) -> Seq<u8>
    decreases records.len(),
{
    if records.len() == 0 {
        Seq::empty()
    } else {
        let raw = laid_out(seg, header, lsn, records[0]);
        let end = lsn + raw.len();
        raw + pad(end) + written_wal(
            seg,
            header,
            pad,
            end + padding_behind(end),
            records.skip(1),
        )
    }
}

/// The records, each with the position of its first byte.
pub open spec fn placed(
    seg: int,
    header: spec_fn(int) -> Seq<u8>,
    lsn: int,
    records: Seq<Seq<u8>>,
) -> Seq<(int, Seq<u8>)>
    decreases records.len(),
{
    if records.len() == 0 {
        Seq::empty()
    } else {
        let end = lsn + laid_out(seg, header, lsn, records[0]).len();
        seq![(payload_start(seg, lsn), records[0])] + placed(
            seg,
            header,
            end + padding_behind(end),
            records.skip(1),
        )
    }
}

/// Every record of a written stream is drained, whole, in order and with its position, and
/// nothing is left over.
pub proof fn written_wal_is_drained(
    v: StreamV,
    header: spec_fn(int) -> Seq<u8>,
    pad: spec_fn(int) -> Seq<u8>,
    records: Seq<Seq<u8>>,
)
    requires
        v.seg > 0,
        v.lsn >= 0,
        v.lsn % 8 == 0,
        good_headers(v.seg, header),
        forall|l: int| (#[trigger] pad(l)).len() == padding_behind(l),
        forall|i: int|
            0 <= i < records.len() ==> (#[trigger] records[i]).len() >= 24 && le_value(
                records[i].take(4),
            ) == records[i].len(),
        v.buf == written_wal(v.seg, header, pad, v.lsn, records),
    ensures
        ({
            let (recs, bad, rest) = drained(v);
            &&& recs == placed(v.seg, header, v.lsn, records)
            &&& bad is None
            &&& rest.buf.len() == 0
            &&& rest.lsn == v.lsn + v.buf.len()
        }),
    decreases records.len(),
{
    if records.len() == 0 {
        assert(collected(v, 4) is Need);
        assert(polled(v) == (Polled::Need, v));
    } else {
        let raw = laid_out(v.seg, header, v.lsn, records[0]);
        let end = v.lsn + raw.len();
        let p = pad(end);
        let next = end + padding_behind(end);
        let more = written_wal(v.seg, header, pad, next, records.skip(1));
        assert(records[0].len() >= 24);
        assert(v.buf =~= raw + (p + more));
        laid_out_record_is_polled(v, header, records[0], p + more);
        lemma_polled(v);
        let rest = polled(v).1;
        let w = StreamV { lsn: next, buf: more, ..v };
        assert((p + more).skip(p.len() as int) =~= more);
        assert(next % 8 == 0);
        assert(aligned(rest) == Some(w)) by {
            if end % 8 == 0 {
                assert(p + more =~= more);
            }
        }
        assert(aligned(w) == Some(w));
        assert(polled(rest) == polled(w));
        assert(drained(rest) == drained(w));
        assert forall|i: int| 0 <= i < records.skip(1).len() implies (
        #[trigger] records.skip(1)[i]).len() >= 24 && le_value(records.skip(1)[i].take(4))
            == records.skip(1)[i].len() by {
            assert(records.skip(1)[i] == records[i + 1]);
        }
        written_wal_is_drained(w, header, pad, records.skip(1));
    }
}

/// Zeros up to the end of a page end the WAL of that page: the stream goes on with the
/// next page.
pub proof fn blank_page_ends_are_skipped(v: StreamV, k: int)
    requires
        v.seg > 0,
        v.lsn >= 0,
        v.lsn % 8 == 0,
        v.lsn % 8192 != 0,
        (v.lsn + k) % 8192 == 0,
        0 < k < 8192,
        k <= v.buf.len(),
        forall|i: int| 0 <= i < k ==> v.buf[i] == 0u8,
    ensures
        polled(v) == polled(v.consume(k)),
{
    assert(k >= 8);
    let first = v.buf.subrange(0, 4);
    assert(collect(v, 4, 4, Seq::<u8>::empty() + first, Some(v.lsn)) == Collected::Done {
        payload: Seq::<u8>::empty() + first,
        raw: 4,
        start: v.lsn,
    });
    assert(Seq::<u8>::empty() + first =~= first);
    crate::bytes::lemma_le_value_4(first);
    assert(le_value(first) == 0);
    assert(next_page(v.lsn) == v.lsn + k);
}

/// A record says its own length. One that says less than the fixed header has is refused
/// as too short, and one that says another length than it has for that.
pub proof fn records_say_their_length(lsn: Lsn, s: Seq<u8>)
    requires
        s.len() >= 24,
    ensures
        ({
            let said = le_value(s.subrange(0, 4));
            &&& said < 24 ==> decoded(lsn, s) == Err::<RecordV, WalDecodeErrorV>(
                WalDecodeErrorV::ShortTotalLen(said as u32),
            )
            &&& said >= 24 && said != s.len() ==> decoded(lsn, s) == Err::<RecordV, WalDecodeErrorV>(
                WalDecodeErrorV::BadTotalLen { declared: said as u32, actual: s.len() as usize },
            )
        }),
{
    lemma_le_value_4(s.subrange(0, 4));
}

/// Behind the fixed header stand block references numbered up to 32 and four kinds of
/// marker; any other number is refused.
pub proof fn unknown_references_are_refused(
    s: Seq<u8>,
    at: int,
    last: Option<Locator>,
    seen: Seq<BlockWork>,
)
    requires
        0 <= at < s.len(),
        33 <= s[at] <= 251,
    ensures
        header_section(s, at, last, seen) == Err::<(Seq<BlockWork>, int, int), WalDecodeErrorV>(
            WalDecodeErrorV::BadBlockId(s[at]),
        ),
{
}

/// The first block reference of a record names its relation itself: where it leaves it to
/// the one before, the record is refused.
pub proof fn first_blocks_name_their_relation(lsn: Lsn, s: Seq<u8>)
    requires
        28 <= s.len() == le_value(s.subrange(0, 4)),
        s[24] <= 32,
        s[25] >= 128,
        s[25] / 16 % 2 == 0,
    ensures
        decoded(lsn, s) == Err::<RecordV, WalDecodeErrorV>(WalDecodeErrorV::SameRelWithoutPrev),
{
    let f = s[25];
    lemma_le_value_4(s.subrange(0, 4));
    assert(f & 0x80 != 0) by (bit_vector)
        requires
            f >= 128,
    ;
    assert(f & 0x10 == 0) by (bit_vector)
        requires
            f / 16 % 2 == 0,
    ;
}

/// There are four forks: a block reference to another is refused.
pub proof fn unknown_forks_are_refused(lsn: Lsn, s: Seq<u8>)
    requires
        44 <= s.len() == le_value(s.subrange(0, 4)),
        s[24] <= 32,
        s[25] < 128,
        s[25] / 16 % 2 == 0,
        s[25] % 16 > 3,
    ensures
        decoded(lsn, s) == Err::<RecordV, WalDecodeErrorV>(
            WalDecodeErrorV::BadFork((s[25] % 16) as u8),
        ),
{
    let f = s[25];
    lemma_le_value_4(s.subrange(0, 4));
    assert(f & 0x80 == 0) by (bit_vector)
        requires
            f < 128,
    ;
    assert(f & 0x10 == 0) by (bit_vector)
        requires
            f / 16 % 2 == 0,
    ;
    assert(f & 0x0F == f % 16) by (bit_vector);
}

/// Where a block reference says that it has no data, none is taken, whatever length
/// stands beside it.
pub proof fn lengths_without_data_do_not_count(s: Seq<u8>, at: int, b: BlockWork)
    requires
        !b.has_data,
        at + (match b.image_meta {
            Some(m) => m.bimg_len as int,
            None => 0,
        }) <= s.len(),
    ensures
        block_body(s, at, b) matches Ok((v, end)) && v.data.len() == 0 && end == at + (
        match b.image_meta {
            Some(m) => m.bimg_len as int,
            None => 0,
        }),
{
}

/// The hole of an image that is stored verbatim is what is missing to a page, in 16 bits.
/// So the hole of one that is longer than a page does not lie within a page either, and
/// the image stands for none.
pub proof fn implied_holes_fill_the_page(len: u16)
    ensures
        (implied_hole(len) + len) % 0x1_0000 == 8192,
        len > 8192 ==> implied_hole(len) > 8192,
{
}

/// Where page headers are checked, one with another number than that of PostgreSQL 16 ends
/// the stream, and the number is told.
pub proof fn pages_of_another_version_end_the_stream(v: StreamV)
    requires
        v.check,
        v.lsn % 8192 == 0,
        v.buf.len() >= 40,
        le_value(v.buf.subrange(0, 2)) != 0xD113,
    ensures
        polled(v) == (Polled::BadMagic(le_value(v.buf.subrange(0, 2)) as u16), v),
        drained(v) == (
            Seq::<(int, Seq<u8>)>::empty(),
            Some(le_value(v.buf.subrange(0, 2)) as u16),
            v,
        ),
{
    lemma_le_value_2(v.buf.subrange(0, 2));
    assert(v.lsn % 8 == 0);
    assert(collected(v, 4) == Collected::BadMagic(le16(v.buf, 0)));
}

proof fn lemma_unchecked(v: StreamV, off: int, n: int, out: Seq<u8>, first: Option<int>)
    requires
        !v.check,
    ensures
        !(collect(v, off, n, out, first) is BadMagic),
    decreases v.buf.len() - off,
{
    let lsn = v.lsn + off;
    if 0 <= off <= v.buf.len() && out.len() < n {
        if lsn % 8192 == 0 {
            let h = header_len(v.seg, lsn);
            if off + h <= v.buf.len() {
                lemma_unchecked(v, off + h, n, out, first);
            }
        } else {
            let left = 8192 - lsn % 8192;
            let want = if n - out.len() < left {
                n - out.len()
            } else {
                left
            };
            if off + want <= v.buf.len() {
                lemma_unchecked(
                    v,
                    off + want,
                    n,
                    out + v.buf.subrange(off, off + want),
                    match first {
                        Some(f) => Some(f),
                        None => Some(lsn),
                    },
                );
            }
        }
    }
}

/// Where page headers are not checked, none ends the stream.
pub proof fn unchecked_pages_do_not_end_the_stream(v: StreamV)
    requires
        !v.check,
    ensures
        !(polled(v).0 is BadMagic),
    decreases v.buf.len(),
{
    if let Some(a) = aligned(v) {
        lemma_unchecked(a, 0, 4, Seq::empty(), None);
        if let Collected::Done { payload, raw, start } = collected(a, 4) {
            let total = le_value(payload) as int;
            let skip = next_page(start) - a.lsn;
            lemma_collect(a, 0, 4, Seq::empty(), None);
            if total < 24 {
                if skip <= a.buf.len() {
                    unchecked_pages_do_not_end_the_stream(a.consume(skip));
                }
            } else {
                lemma_unchecked(a, 0, total, Seq::empty(), None);
            }
        }
    }
}

/// Why an image stands for no page: it is compressed, or its hole ends behind the page, or
/// it has not the bytes that the hole leaves.
pub proof fn images_that_stand_for_no_page(i: ImageV)
    requires
        i.bytes.len() < 0x1_0000,
    ensures
        i.compression != Compression::Verbatim ==> restored(i) == Err::<Seq<u8>, WalDecodeErrorV>(
            WalDecodeErrorV::UnsupportedCompression(i.compression),
        ),
        i.compression == Compression::Verbatim && i.hole_length > 0 && i.hole_offset + i.hole_length
            > 8192 ==> restored(i) == Err::<Seq<u8>, WalDecodeErrorV>(
            WalDecodeErrorV::BadHole {
                offset: i.hole_offset as usize,
                length: i.hole_length as usize,
            },
        ),
        i.compression == Compression::Verbatim && (i.hole_length == 0 || i.hole_offset
            + i.hole_length <= 8192) && i.bytes.len() + i.hole_length != 8192 ==> restored(i)
            == Err::<Seq<u8>, WalDecodeErrorV>(
            WalDecodeErrorV::BadImageSize {
                got: i.bytes.len() as usize,
                want: (8192 - i.hole_length) as usize,
            },
        ),
{
}

} // verus!
