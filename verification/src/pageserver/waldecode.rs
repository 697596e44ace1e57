//! PostgreSQL WAL decoder.
//!
//! Two parts, neither of which does any I/O:
//!
//! * [`WalStreamDecoder`] frames the stream. WAL is a sequence of 8 KiB pages,
//!   each with a header in front; records are aligned to eight bytes and may
//!   continue across page boundaries. Feed it bytes, poll out whole records.
//! * [`decode_wal_record`] parses one record's generic layer: the blocks it
//!   refers to, each with an optional full-page image and per-block data, plus
//!   the resource manager and the main data.
//!
//! All integers are least significant byte first, as on x86-64 and aarch64. The
//! layouts are those of PostgreSQL 16.

use vstd::prelude::*;

use crate::bytes::{copy_bytes, copy_range, le_u16, le_u32, le_value};
use crate::common::lsn::Lsn;
use crate::common::page::{fork_of, ForkNumber, RelTag};
use crate::text::{copy_str, decimal, hex_fixed, push_decimal, push_hex_fixed};

verus! {

/// WAL block size, the heap page size of a default build.
pub const XLOG_BLCKSZ: usize = 8192;

/// Size of the fixed record header.
pub const SIZE_OF_XLOG_RECORD: usize = 24;

/// Size of the header in front of an ordinary page.
pub const SIZE_OF_XLOG_SHORT_PHD: usize = 24;

/// Size of the header in front of the first page of a segment.
pub const SIZE_OF_XLOG_LONG_PHD: usize = 40;

/// Default WAL segment size (16 MiB); it decides where long headers stand.
pub const DEFAULT_WAL_SEG_SIZE: u64 = 16777216;

/// The magic number in the page headers of PostgreSQL 16.
pub const XLOG_PAGE_MAGIC_PG16: u16 = 0xD113;

/// Largest id of a registered block.
pub const XLR_MAX_BLOCK_ID: u8 = 32;

/// Marks a main-data length of one byte.
pub const XLR_BLOCK_ID_DATA_SHORT: u8 = 255;

/// Marks a main-data length of four bytes.
pub const XLR_BLOCK_ID_DATA_LONG: u8 = 254;

/// Marks a replication origin.
pub const XLR_BLOCK_ID_ORIGIN: u8 = 253;

/// Marks a top-level transaction id.
pub const XLR_BLOCK_ID_TOPLEVEL_XID: u8 = 252;

/// The bits of a block header that hold the fork.
pub const BKPBLOCK_FORK_MASK: u8 = 0x0F;

/// The block carries a full-page image.
pub const BKPBLOCK_HAS_IMAGE: u8 = 0x10;

/// The block carries data.
pub const BKPBLOCK_HAS_DATA: u8 = 0x20;

/// Redo re-initializes the page.
pub const BKPBLOCK_WILL_INIT: u8 = 0x40;

/// The block is of the same relation as the one before.
pub const BKPBLOCK_SAME_REL: u8 = 0x80;

/// The image has had a hole removed.
pub const BKPIMAGE_HAS_HOLE: u8 = 0x01;

/// Redo installs the image.
pub const BKPIMAGE_APPLY: u8 = 0x02;

/// The image is compressed with pglz.
pub const BKPIMAGE_COMPRESS_PGLZ: u8 = 0x04;

/// The image is compressed with LZ4.
pub const BKPIMAGE_COMPRESS_LZ4: u8 = 0x08;

/// The image is compressed with Zstandard.
pub const BKPIMAGE_COMPRESS_ZSTD: u8 = 0x10;

/// Any of the three compressions.
pub const BKPIMAGE_COMPRESSED: u8 = 0x1C;

/// Compression applied to a stored full-page image.
#[derive(Debug, Clone, Copy, PartialEq, Eq, Structural)]
pub enum Compression {
    /// Stored verbatim (after any hole removal).
    Verbatim,
    /// PostgreSQL's built-in LZ.
    Pglz,
    /// LZ4.
    Lz4,
    /// Zstandard.
    Zstd,
}

/// The name of a compression.
pub open spec fn compression_name(c: Compression) -> Seq<char> {
    match c {
        Compression::Verbatim => "None"@,
        Compression::Pglz => "Pglz"@,
        Compression::Lz4 => "Lz4"@,
        Compression::Zstd => "Zstd"@,
    }
}

impl Compression {
    /// The compression's name.
    pub fn name(self) -> (r: &'static str)
        ensures
            r@ == compression_name(self),
    {
        match self {
            Compression::Verbatim => "None",
            Compression::Pglz => "Pglz",
            Compression::Lz4 => "Lz4",
            Compression::Zstd => "Zstd",
        }
    }
}

/// Errors produced while framing or decoding WAL.
#[allow(inconsistent_fields)]
#[derive(Debug, PartialEq, Eq)]
pub enum WalDecodeError {
    /// The record body ended before a field could be read.
    Truncated(&'static str),
    /// The record's own length disagrees with the buffer handed in.
    BadTotalLen { declared: u32, actual: usize },
    /// The record's own length is smaller than the fixed header.
    ShortTotalLen(u32),
    /// A block id outside the legal range appeared in the body.
    BadBlockId(u8),
    /// A block of the same relation appeared with no relation before it.
    SameRelWithoutPrev,
    /// The fork number in a block header is unknown.
    BadFork(u8),
    /// A page header carried the wrong magic number.
    BadPageMagic { got: u16, want: u16 },
    /// A stored full-page image had an unexpected size.
    BadImageSize { got: usize, want: usize },
    /// The image is compressed with a method that cannot be undone here.
    UnsupportedCompression(Compression),
    /// The hole described by an image runs past the page.
    BadHole { offset: usize, length: usize },
}

/// What a [`WalDecodeError`] says.
#[allow(inconsistent_fields)]
pub enum WalDecodeErrorV {
    Truncated(Seq<char>),
    BadTotalLen { declared: u32, actual: usize },
    ShortTotalLen(u32),
    BadBlockId(u8),
    SameRelWithoutPrev,
    BadFork(u8),
    BadPageMagic { got: u16, want: u16 },
    BadImageSize { got: usize, want: usize },
    UnsupportedCompression(Compression),
    BadHole { offset: usize, length: usize },
}

impl View for WalDecodeError {
    type V = WalDecodeErrorV;

    open spec fn view(&self) -> WalDecodeErrorV {
        match *self {
            WalDecodeError::Truncated(w) => WalDecodeErrorV::Truncated(w@),
            WalDecodeError::BadTotalLen { declared, actual } => WalDecodeErrorV::BadTotalLen {
                declared,
                actual,
            },
            WalDecodeError::ShortTotalLen(n) => WalDecodeErrorV::ShortTotalLen(n),
            WalDecodeError::BadBlockId(b) => WalDecodeErrorV::BadBlockId(b),
            WalDecodeError::SameRelWithoutPrev => WalDecodeErrorV::SameRelWithoutPrev,
            WalDecodeError::BadFork(f) => WalDecodeErrorV::BadFork(f),
            WalDecodeError::BadPageMagic { got, want } => WalDecodeErrorV::BadPageMagic {
                got,
                want,
            },
            WalDecodeError::BadImageSize { got, want } => WalDecodeErrorV::BadImageSize {
                got,
                want,
            },
            WalDecodeError::UnsupportedCompression(c) => WalDecodeErrorV::UnsupportedCompression(
                c,
            ),
            WalDecodeError::BadHole { offset, length } => WalDecodeErrorV::BadHole {
                offset,
                length,
            },
        }
    }
}

/// The sentence for an error.
pub open spec fn decode_error_text(e: WalDecodeErrorV) -> Seq<char> {
    match e {
        WalDecodeErrorV::Truncated(w) => "WAL record truncated while reading "@ + w,
        WalDecodeErrorV::BadTotalLen { declared, actual } => "xl_tot_len "@ + decimal(
            declared as nat,
        ) + " != record length "@ + decimal(actual as nat),
        WalDecodeErrorV::ShortTotalLen(n) => "xl_tot_len "@ + decimal(n as nat)
            + " is shorter than the record header"@,
        WalDecodeErrorV::BadBlockId(b) => "illegal block id "@ + decimal(b as nat)
            + " in WAL record"@,
        WalDecodeErrorV::SameRelWithoutPrev => "BKPBLOCK_SAME_REL with no previous relation"@,
        WalDecodeErrorV::BadFork(f) => "unknown fork number "@ + decimal(f as nat),
        WalDecodeErrorV::BadPageMagic { got, want } => "bad XLOG page magic 0x"@ + hex_fixed(
            got as nat,
            4,
        ) + ", expected 0x"@ + hex_fixed(want as nat, 4),
        WalDecodeErrorV::BadImageSize { got, want } => "full-page image is "@ + decimal(got as nat)
            + " bytes, expected "@ + decimal(want as nat),
        WalDecodeErrorV::UnsupportedCompression(c) => "compressed full-page image ("@
            + compression_name(c) + ") is not yet supported"@,
        WalDecodeErrorV::BadHole { offset, length } => "image hole offset "@ + decimal(
            offset as nat,
        ) + "+"@ + decimal(length as nat) + " exceeds page size"@,
    }
}

impl WalDecodeError {
    /// The error as a sentence.
    pub fn to_string(&self) -> (r: String)
        ensures
            r@ == decode_error_text(self@),
    {
        match self {
            WalDecodeError::Truncated(w) => {
                let mut m = copy_str("WAL record truncated while reading ");
                m.push_str(w);
                m
            },
            WalDecodeError::BadTotalLen { declared, actual } => {
                let mut m = copy_str("xl_tot_len ");
                push_decimal(&mut m, *declared as u64);
                m.push_str(" != record length ");
                push_decimal(&mut m, *actual as u64);
                m
            },
            WalDecodeError::ShortTotalLen(n) => {
                let mut m = copy_str("xl_tot_len ");
                push_decimal(&mut m, *n as u64);
                m.push_str(" is shorter than the record header");
                m
            },
            WalDecodeError::BadBlockId(b) => {
                let mut m = copy_str("illegal block id ");
                push_decimal(&mut m, *b as u64);
                m.push_str(" in WAL record");
                m
            },
            WalDecodeError::SameRelWithoutPrev => copy_str(
                "BKPBLOCK_SAME_REL with no previous relation",
            ),
            WalDecodeError::BadFork(f) => {
                let mut m = copy_str("unknown fork number ");
                push_decimal(&mut m, *f as u64);
                m
            },
            WalDecodeError::BadPageMagic { got, want } => {
                let mut m = copy_str("bad XLOG page magic 0x");
                push_hex_fixed(&mut m, *got as u64, 4);
                m.push_str(", expected 0x");
                push_hex_fixed(&mut m, *want as u64, 4);
                m
            },
            WalDecodeError::BadImageSize { got, want } => {
                let mut m = copy_str("full-page image is ");
                push_decimal(&mut m, *got as u64);
                m.push_str(" bytes, expected ");
                push_decimal(&mut m, *want as u64);
                m
            },
            WalDecodeError::UnsupportedCompression(c) => {
                let mut m = copy_str("compressed full-page image (");
                m.push_str(c.name());
                m.push_str(") is not yet supported");
                m
            },
            WalDecodeError::BadHole { offset, length } => {
                let mut m = copy_str("image hole offset ");
                push_decimal(&mut m, *offset as u64);
                m.push_str("+");
                push_decimal(&mut m, *length as u64);
                m.push_str(" exceeds page size");
                m
            },
        }
    }
}

// ---------------------------------------------------------------------------
// Full-page images
// ---------------------------------------------------------------------------

/// A full-page image carried by a WAL record, as stored on the wire.
///
/// The stored bytes have had the page's all-zero hole removed and may be
/// compressed; [`restore`](DecodedImage::restore) rebuilds the full page.
#[derive(Debug, Clone, PartialEq, Eq)]
pub struct DecodedImage {
    /// Stored image bytes (after hole removal and compression).
    pub bytes: Vec<u8>,
    /// Offset of the removed hole within the full page.
    pub hole_offset: u16,
    /// Length of the removed hole (0 if the page had no hole).
    pub hole_length: u16,
    /// Compression method applied to `bytes`.
    pub compression: Compression,
    /// Redo should install this image even when the page already exists.
    pub apply: bool,
}

/// What a [`DecodedImage`] holds.
pub struct ImageV {
    pub bytes: Seq<u8>,
    pub hole_offset: u16,
    pub hole_length: u16,
    pub compression: Compression,
    pub apply: bool,
}

impl View for DecodedImage {
    type V = ImageV;

    open spec fn view(&self) -> ImageV {
        ImageV {
            bytes: self.bytes@,
            hole_offset: self.hole_offset,
            hole_length: self.hole_length,
            compression: self.compression,
            apply: self.apply,
        }
    }
}

/// `n` zero bytes.
pub open spec fn zeros(n: int) -> Seq<u8> {
    Seq::new(n as nat, |i: int| 0u8)
}

/// The page that an image stands for, or why it stands for none: what was
/// stored, with the zero hole put back.
pub open spec fn restored(img: ImageV) -> Result<Seq<u8>, WalDecodeErrorV> {
    let ho = img.hole_offset as int;
    let hl = img.hole_length as int;
    if img.compression != Compression::Verbatim {
        Err(WalDecodeErrorV::UnsupportedCompression(img.compression))
    } else if hl != 0 && ho + hl > XLOG_BLCKSZ {
        Err(WalDecodeErrorV::BadHole { offset: ho as usize, length: hl as usize })
    } else if img.bytes.len() != XLOG_BLCKSZ - hl {
        Err(
            WalDecodeErrorV::BadImageSize {
                got: img.bytes.len() as usize,
                want: (XLOG_BLCKSZ - hl) as usize,
            },
        )
    } else if hl == 0 {
        Ok(img.bytes)
    } else {
        Ok(img.bytes.take(ho) + zeros(hl) + img.bytes.skip(ho))
    }
}

/// Same value, or errors that say the same.
pub open spec fn bytes_result(r: Result<Vec<u8>, WalDecodeError>) -> Result<
    Seq<u8>,
    WalDecodeErrorV,
> {
    match r {
        Ok(v) => Ok(v@),
        Err(e) => Err(e@),
    }
}

impl DecodedImage {
    /// Rebuild the full 8 KiB page from the stored bytes.
    ///
    /// Compressed images are refused: a wrong page is never returned.
    pub fn restore(&self) -> (r: Result<Vec<u8>, WalDecodeError>)
        ensures
            bytes_result(r) == restored(self@),
            r matches Ok(p) ==> p@.len() == XLOG_BLCKSZ,
    {
        if self.compression != Compression::Verbatim {
            return Err(WalDecodeError::UnsupportedCompression(self.compression));
        }
        let hl: usize = self.hole_length as usize;
        let ho: usize = self.hole_offset as usize;
        if hl != 0 && ho + hl > XLOG_BLCKSZ {
            return Err(WalDecodeError::BadHole { offset: ho, length: hl });
        }
        if self.bytes.len() != XLOG_BLCKSZ - hl {
            return Err(
                WalDecodeError::BadImageSize { got: self.bytes.len(), want: XLOG_BLCKSZ - hl },
            );
        }
        if hl == 0 {
            return Ok(copy_bytes(self.bytes.as_slice()));
        }
        let mut page: Vec<u8> = copy_range(self.bytes.as_slice(), 0, ho);
        let mut hole: Vec<u8> = vec![0u8; hl];
        let mut tail: Vec<u8> = copy_range(self.bytes.as_slice(), ho, self.bytes.len());
        page.append(&mut hole);
        page.append(&mut tail);
        assert(page@ =~= restored(self@)->Ok_0);
        Ok(page)
    }
}

/// A page whose hole was cut out comes back whole: cutting `hl` zero bytes at
/// `ho` out of a page and restoring the image gives the page.
pub proof fn hole_removal_is_undone(page: Seq<u8>, ho: u16, hl: u16, apply: bool)
    requires
        page.len() == XLOG_BLCKSZ,
        ho + hl <= XLOG_BLCKSZ,
        forall|i: int| ho <= i < ho + hl ==> page[i] == 0u8,
    ensures
        restored(
            ImageV {
                bytes: page.take(ho as int) + page.skip(ho + hl),
                hole_offset: ho,
                hole_length: hl,
                compression: Compression::Verbatim,
                apply,
            },
        ) == Ok::<Seq<u8>, WalDecodeErrorV>(page),
{
    let bytes = page.take(ho as int) + page.skip(ho + hl);
    if hl == 0 {
        assert(bytes =~= page);
    } else {
        assert(bytes.take(ho as int) + zeros(hl as int) + bytes.skip(ho as int) =~= page);
    }
}


// ---------------------------------------------------------------------------
// Records
// ---------------------------------------------------------------------------

/// One registered block reference within a WAL record.
#[derive(Debug, Clone, PartialEq, Eq)]
pub struct DecodedBlock {
    /// The relation and fork this block belongs to.
    pub rel: RelTag,
    /// Block number within the fork.
    pub blkno: u32,
    /// Redo re-initializes the page, so no base image is needed.
    pub will_init: bool,
    /// The full-page image attached to this block, if any.
    pub image: Option<DecodedImage>,
    /// The per-block data (empty if the block had none).
    pub data: Vec<u8>,
}

/// A fully decoded WAL record: its identity plus every page it touches.
#[derive(Debug, Clone, PartialEq, Eq)]
pub struct DecodedWalRecord {
    /// Position of the first byte of this record.
    pub lsn: Lsn,
    /// Resource-manager id.
    pub rmid: u8,
    /// Record-specific info bits.
    pub info: u8,
    /// Transaction that wrote the record.
    pub xid: u32,
    /// The resource manager's own payload.
    pub main_data: Vec<u8>,
    /// Every block this record references, in block-id order.
    pub blocks: Vec<DecodedBlock>,
}

/// What a [`DecodedBlock`] holds.
pub struct BlockV {
    pub rel: RelTag,
    pub blkno: u32,
    pub will_init: bool,
    pub image: Option<ImageV>,
    pub data: Seq<u8>,
}

/// What a [`DecodedWalRecord`] holds.
pub struct RecordV {
    pub lsn: Lsn,
    pub rmid: u8,
    pub info: u8,
    pub xid: u32,
    pub main_data: Seq<u8>,
    pub blocks: Seq<BlockV>,
}

impl View for DecodedBlock {
    type V = BlockV;

    open spec fn view(&self) -> BlockV {
        BlockV {
            rel: self.rel,
            blkno: self.blkno,
            will_init: self.will_init,
            image: match self.image {
                Some(i) => Some(i@),
                None => None,
            },
            data: self.data@,
        }
    }
}

/// What each block of a list holds.
pub open spec fn blocks_view(b: Seq<DecodedBlock>) -> Seq<BlockV> {
    Seq::new(b.len(), |i: int| b[i]@)
}

impl View for DecodedWalRecord {
    type V = RecordV;

    open spec fn view(&self) -> RecordV {
        RecordV {
            lsn: self.lsn,
            rmid: self.rmid,
            info: self.info,
            xid: self.xid,
            main_data: self.main_data@,
            blocks: blocks_view(self.blocks@),
        }
    }
}

/// The image part of a block header.
pub struct ImageMeta {
    pub bimg_len: usize,
    pub hole_offset: u16,
    pub hole_length: u16,
    pub compression: Compression,
    pub apply: bool,
}

/// A block header; its image and data stand further on in the record.
pub struct BlockWork {
    pub rel: RelTag,
    pub blkno: u32,
    pub will_init: bool,
    pub has_data: bool,
    pub data_len: usize,
    pub image_meta: Option<ImageMeta>,
}

/// The relation of a block: tablespace, database, relation.
pub type Locator = (u32, u32, u32);

/// The two bytes of `s` at `at` as a number.
pub open spec fn le16(s: Seq<u8>, at: int) -> u16 {
    le_value(s.subrange(at, at + 2)) as u16
}

/// The four bytes of `s` at `at` as a number.
pub open spec fn le32(s: Seq<u8>, at: int) -> u32 {
    le_value(s.subrange(at, at + 4)) as u32
}

/// Whether `n` more bytes stand at `at`.
pub open spec fn fits(s: Seq<u8>, at: int, n: int) -> bool {
    at + n <= s.len()
}

/// The compression that the image's info bits name.
pub open spec fn compression_of(bimg_info: u8) -> Compression {
    if bimg_info & BKPIMAGE_COMPRESS_PGLZ != 0 {
        Compression::Pglz
    } else if bimg_info & BKPIMAGE_COMPRESS_LZ4 != 0 {
        Compression::Lz4
    } else if bimg_info & BKPIMAGE_COMPRESS_ZSTD != 0 {
        Compression::Zstd
    } else {
        Compression::Verbatim
    }
}

/// The length of the hole of an uncompressed image of `len` bytes: what is
/// missing to a page. It wraps around where the image is longer than a page;
/// such a hole never fits, so such an image is never restored.
pub open spec fn implied_hole(len: u16) -> u16 {
    if len <= XLOG_BLCKSZ {
        (XLOG_BLCKSZ - len) as u16
    } else {
        (XLOG_BLCKSZ - len + 0x1_0000) as u16
    }
}

/// The image header at `at`, and where it ends.
pub open spec fn image_header(s: Seq<u8>, at: int) -> Result<(ImageMeta, int), WalDecodeErrorV> {
    if !fits(s, at, 2) {
        Err(WalDecodeErrorV::Truncated("bimg_len"@))
    } else if !fits(s, at + 2, 2) {
        Err(WalDecodeErrorV::Truncated("hole_offset"@))
    } else if !fits(s, at + 4, 1) {
        Err(WalDecodeErrorV::Truncated("bimg_info"@))
    } else {
        let len = le16(s, at);
        let info = s[at + 4];
        let has_hole = info & BKPIMAGE_HAS_HOLE != 0;
        let explicit = has_hole && info & BKPIMAGE_COMPRESSED != 0;
        if explicit && !fits(s, at + 5, 2) {
            Err(WalDecodeErrorV::Truncated("hole_length"@))
        } else {
            Ok(
                (
                    ImageMeta {
                        bimg_len: len as usize,
                        hole_offset: le16(s, at + 2),
                        hole_length: if explicit {
                            le16(s, at + 5)
                        } else if has_hole {
                            implied_hole(len)
                        } else {
                            0
                        },
                        compression: compression_of(info),
                        apply: info & BKPIMAGE_APPLY != 0,
                    },
                    if explicit {
                        at + 7
                    } else {
                        at + 5
                    },
                ),
            )
        }
    }
}

/// The relation at `at`, or the last one where the header says so, and where
/// it ends.
pub open spec fn locator(s: Seq<u8>, at: int, same_rel: bool, last: Option<Locator>) -> Result<
    (Locator, int),
    WalDecodeErrorV,
> {
    if same_rel {
        match last {
            Some(l) => Ok((l, at)),
            None => Err(WalDecodeErrorV::SameRelWithoutPrev),
        }
    } else if !fits(s, at, 4) {
        Err(WalDecodeErrorV::Truncated("spcOid"@))
    } else if !fits(s, at + 4, 4) {
        Err(WalDecodeErrorV::Truncated("dbOid"@))
    } else if !fits(s, at + 8, 4) {
        Err(WalDecodeErrorV::Truncated("relNumber"@))
    } else {
        Ok(((le32(s, at), le32(s, at + 4), le32(s, at + 8)), at + 12))
    }
}

/// The image header where the block's flags announce one.
pub open spec fn optional_image(s: Seq<u8>, at: int, has_image: bool) -> Result<
    (Option<ImageMeta>, int),
    WalDecodeErrorV,
> {
    if has_image {
        match image_header(s, at) {
            Err(e) => Err(e),
            Ok((m, next)) => Ok((Some(m), next)),
        }
    } else {
        Ok((None, at))
    }
}

/// The block header at `at` (behind its id), its relation, and where it ends.
pub open spec fn block_header(s: Seq<u8>, at: int, last: Option<Locator>) -> Result<
    (BlockWork, Locator, int),
    WalDecodeErrorV,
> {
    if !fits(s, at, 1) {
        Err(WalDecodeErrorV::Truncated("fork_flags"@))
    } else if !fits(s, at + 1, 2) {
        Err(WalDecodeErrorV::Truncated("block data_len"@))
    } else {
        let flags = s[at];
        match optional_image(s, at + 3, flags & BKPBLOCK_HAS_IMAGE != 0) {
            Err(e) => Err(e),
            Ok((image_meta, at2)) => match locator(s, at2, flags & BKPBLOCK_SAME_REL != 0, last) {
                Err(e) => Err(e),
                Ok((l, at3)) => if !fits(s, at3, 4) {
                    Err(WalDecodeErrorV::Truncated("blkno"@))
                } else {
                    match fork_of(flags & BKPBLOCK_FORK_MASK) {
                        None => Err(WalDecodeErrorV::BadFork(flags & BKPBLOCK_FORK_MASK)),
                        Some(fork) => Ok(
                            (
                                BlockWork {
                                    rel: RelTag {
                                        spc_node: l.0,
                                        db_node: l.1,
                                        rel_node: l.2,
                                        fork,
                                    },
                                    blkno: le32(s, at3),
                                    will_init: flags & BKPBLOCK_WILL_INIT != 0,
                                    has_data: flags & BKPBLOCK_HAS_DATA != 0,
                                    data_len: le16(s, at + 1) as usize,
                                    image_meta,
                                },
                                l,
                                at3 + 4,
                            ),
                        ),
                    }
                },
            },
        }
    }
}

/// The header section from `at` on: the blocks (after those in `seen`), the
/// length of the main data, and where the section ends. The main-data length
/// comes last.
pub open spec fn header_section(
    s: Seq<u8>,
    at: int,
    last: Option<Locator>,
    seen: Seq<BlockWork>,
) -> Result<(Seq<BlockWork>, int, int), WalDecodeErrorV>
    decreases s.len() - at,
    via header_section_decreases
{
    if at < 0 || !fits(s, at, 1) {
        Err(WalDecodeErrorV::Truncated("block_id"@))
    } else if s[at] == XLR_BLOCK_ID_DATA_SHORT {
        if fits(s, at + 1, 1) {
            Ok((seen, s[at + 1] as int, at + 2))
        } else {
            Err(WalDecodeErrorV::Truncated("main_data_len"@))
        }
    } else if s[at] == XLR_BLOCK_ID_DATA_LONG {
        if fits(s, at + 1, 4) {
            Ok((seen, le32(s, at + 1) as int, at + 5))
        } else {
            Err(WalDecodeErrorV::Truncated("main_data_len"@))
        }
    } else if s[at] == XLR_BLOCK_ID_ORIGIN {
        if fits(s, at + 1, 2) {
            header_section(s, at + 3, last, seen)
        } else {
            Err(WalDecodeErrorV::Truncated("replication origin"@))
        }
    } else if s[at] == XLR_BLOCK_ID_TOPLEVEL_XID {
        if fits(s, at + 1, 8) {
            header_section(s, at + 9, last, seen)
        } else {
            Err(WalDecodeErrorV::Truncated("toplevel xid"@))
        }
    } else if s[at] <= XLR_MAX_BLOCK_ID {
        match block_header(s, at + 1, last) {
            Err(e) => Err(e),
            Ok((b, l, next)) => header_section(s, next, Some(l), seen.push(b)),
        }
    } else {
        Err(WalDecodeErrorV::BadBlockId(s[at]))
    }
}

#[via_fn]
proof fn header_section_decreases(
    s: Seq<u8>,
    at: int,
    last: Option<Locator>,
    seen: Seq<BlockWork>,
) {
    assert(block_header(s, at + 1, last) matches Ok((b, l, next)) ==> at < next <= s.len());
}

/// The block whose header is `b` and whose image and data stand at `at`, and
/// where they end.
pub open spec fn block_body(s: Seq<u8>, at: int, b: BlockWork) -> Result<
    (BlockV, int),
    WalDecodeErrorV,
> {
    let ilen = match b.image_meta {
        Some(m) => m.bimg_len as int,
        None => 0,
    };
    let dlen = if b.has_data {
        b.data_len as int
    } else {
        0
    };
    if b.image_meta is Some && !fits(s, at, ilen) {
        Err(WalDecodeErrorV::Truncated("block image"@))
    } else if b.has_data && !fits(s, at + ilen, dlen) {
        Err(WalDecodeErrorV::Truncated("block data"@))
    } else {
        Ok(
            (
                BlockV {
                    rel: b.rel,
                    blkno: b.blkno,
                    will_init: b.will_init,
                    image: match b.image_meta {
                        Some(m) => Some(
                            ImageV {
                                bytes: s.subrange(at, at + ilen),
                                hole_offset: m.hole_offset,
                                hole_length: m.hole_length,
                                compression: m.compression,
                                apply: m.apply,
                            },
                        ),
                        None => None,
                    },
                    data: if b.has_data {
                        s.subrange(at + ilen, at + ilen + dlen)
                    } else {
                        Seq::empty()
                    },
                },
                at + ilen + dlen,
            ),
        )
    }
}

/// The blocks from number `i` on (after those in `seen`), whose images and data
/// stand one behind the other from `at` on, and where they end.
pub open spec fn data_section(
    s: Seq<u8>,
    at: int,
    work: Seq<BlockWork>,
    i: int,
    seen: Seq<BlockV>,
) -> Result<(Seq<BlockV>, int), WalDecodeErrorV>
    decreases work.len() - i,
{
    if i < 0 || i >= work.len() {
        Ok((seen, at))
    } else {
        match block_body(s, at, work[i]) {
            Err(e) => Err(e),
            Ok((b, next)) => data_section(s, next, work, i + 1, seen.push(b)),
        }
    }
}

/// Which field of the fixed header a record of `n` bytes, too short for it,
/// breaks off in.
pub open spec fn missing_field(n: int) -> Seq<char> {
    if n < 4 {
        "xl_tot_len"@
    } else if n < 8 {
        "xl_xid"@
    } else if n < 16 {
        "xl_prev"@
    } else if n < 17 {
        "xl_info"@
    } else if n < 18 {
        "xl_rmid"@
    } else if n < 20 {
        "xl_padding"@
    } else {
        "xl_crc"@
    }
}

/// The record that `s` holds, or why it holds none: the fixed header, the
/// header section, the blocks' images and data, the main data.
pub open spec fn decoded(lsn: Lsn, s: Seq<u8>) -> Result<RecordV, WalDecodeErrorV> {
    if s.len() < SIZE_OF_XLOG_RECORD {
        Err(WalDecodeErrorV::Truncated(missing_field(s.len() as int)))
    } else if le32(s, 0) < SIZE_OF_XLOG_RECORD {
        Err(WalDecodeErrorV::ShortTotalLen(le32(s, 0)))
    } else if le32(s, 0) != s.len() {
        Err(WalDecodeErrorV::BadTotalLen { declared: le32(s, 0), actual: s.len() as usize })
    } else {
        match header_section(s, SIZE_OF_XLOG_RECORD as int, None, Seq::empty()) {
            Err(e) => Err(e),
            Ok((work, main_len, at)) => match data_section(s, at, work, 0, Seq::empty()) {
                Err(e) => Err(e),
                Ok((blocks, at2)) => if !fits(s, at2, main_len) {
                    Err(WalDecodeErrorV::Truncated("main data"@))
                } else {
                    Ok(
                        RecordV {
                            lsn,
                            rmid: s[17],
                            info: s[16],
                            xid: le32(s, 4),
                            main_data: s.subrange(at2, at2 + main_len),
                            blocks,
                        },
                    )
                },
            },
        }
    }
}

/// A record that is cut short is refused, wherever it is cut, and so is one with bytes
/// behind it: inside the fixed header as truncated, else for its length.
pub proof fn records_of_another_length_are_refused(lsn: Lsn, s: Seq<u8>, n: int, more: Seq<u8>)
    requires
        decoded(lsn, s) is Ok,
        0 <= n < s.len(),
        more.len() > 0,
    ensures
        n < SIZE_OF_XLOG_RECORD ==> decoded(lsn, s.take(n)) == Err::<RecordV, WalDecodeErrorV>(
            WalDecodeErrorV::Truncated(missing_field(n)),
        ),
        n >= SIZE_OF_XLOG_RECORD ==> decoded(lsn, s.take(n)) == Err::<RecordV, WalDecodeErrorV>(
            WalDecodeErrorV::BadTotalLen { declared: le32(s, 0), actual: n as usize },
        ),
        decoded(lsn, s + more) == Err::<RecordV, WalDecodeErrorV>(
            WalDecodeErrorV::BadTotalLen {
                declared: le32(s, 0),
                actual: (s.len() + more.len()) as usize,
            },
        ),
{
    assert((s + more).subrange(0, 4) =~= s.subrange(0, 4));
    if n >= SIZE_OF_XLOG_RECORD {
        assert(s.take(n).subrange(0, 4) =~= s.subrange(0, 4));
    }
}

fn compression_from_info(bimg_info: u8) -> (r: Compression)
    ensures
        r == compression_of(bimg_info),
{
    if bimg_info & BKPIMAGE_COMPRESS_PGLZ != 0 {
        Compression::Pglz
    } else if bimg_info & BKPIMAGE_COMPRESS_LZ4 != 0 {
        Compression::Lz4
    } else if bimg_info & BKPIMAGE_COMPRESS_ZSTD != 0 {
        Compression::Zstd
    } else {
        Compression::Verbatim
    }
}

/// A little-endian cursor over a byte slice with bounds-checked reads.
struct Cursor<'a> {
    buf: &'a [u8],
    pos: usize,
}

impl<'a> Cursor<'a> {
    spec fn wf(self) -> bool {
        self.pos <= self.buf@.len() && self.buf@.len() <= usize::MAX
    }

    /// `self` is `before` moved on by `n` bytes, which were there.
    spec fn moved(self, before: Cursor, n: int) -> bool {
        self.buf == before.buf && self.pos == before.pos + n && self.wf()
    }

    fn remaining(&self) -> (r: usize)
        requires
            self.wf(),
        ensures
            r == self.buf@.len() - self.pos,
    {
        self.buf.len() - self.pos
    }

    fn skip(&mut self, n: usize, what: &'static str) -> (r: Result<usize, WalDecodeError>)
        requires
            old(self).wf(),
        ensures
            match r {
                Ok(at) => fits(old(self).buf@, old(self).pos as int, n as int) && at == old(
                    self,
                ).pos && final(self).moved(*old(self), n as int),
                Err(e) => !fits(old(self).buf@, old(self).pos as int, n as int) && e@
                    == WalDecodeErrorV::Truncated(what@),
            },
    {
        if self.remaining() < n {
            return Err(WalDecodeError::Truncated(what));
        }
        let at: usize = self.pos;
        self.pos = self.pos + n;
        Ok(at)
    }

    fn u8(&mut self, what: &'static str) -> (r: Result<u8, WalDecodeError>)
        requires
            old(self).wf(),
        ensures
            match r {
                Ok(v) => fits(old(self).buf@, old(self).pos as int, 1) && v == old(self).buf@[old(
                    self,
                ).pos as int] && final(self).moved(*old(self), 1),
                Err(e) => !fits(old(self).buf@, old(self).pos as int, 1) && e@
                    == WalDecodeErrorV::Truncated(what@),
            },
    {
        match self.skip(1, what) {
            Ok(at) => Ok(self.buf[at]),
            Err(e) => Err(e),
        }
    }

    fn u16(&mut self, what: &'static str) -> (r: Result<u16, WalDecodeError>)
        requires
            old(self).wf(),
        ensures
            match r {
                Ok(v) => fits(old(self).buf@, old(self).pos as int, 2) && v == le16(
                    old(self).buf@,
                    old(self).pos as int,
                ) && final(self).moved(*old(self), 2),
                Err(e) => !fits(old(self).buf@, old(self).pos as int, 2) && e@
                    == WalDecodeErrorV::Truncated(what@),
            },
    {
        match self.skip(2, what) {
            Ok(at) => Ok(le_u16(self.buf, at)),
            Err(e) => Err(e),
        }
    }

    fn u32(&mut self, what: &'static str) -> (r: Result<u32, WalDecodeError>)
        requires
            old(self).wf(),
        ensures
            match r {
                Ok(v) => fits(old(self).buf@, old(self).pos as int, 4) && v == le32(
                    old(self).buf@,
                    old(self).pos as int,
                ) && final(self).moved(*old(self), 4),
                Err(e) => !fits(old(self).buf@, old(self).pos as int, 4) && e@
                    == WalDecodeErrorV::Truncated(what@),
            },
    {
        match self.skip(4, what) {
            Ok(at) => Ok(le_u32(self.buf, at)),
            Err(e) => Err(e),
        }
    }

    fn take(&mut self, n: usize, what: &'static str) -> (r: Result<Vec<u8>, WalDecodeError>)
        requires
            old(self).wf(),
        ensures
            match r {
                Ok(v) => fits(old(self).buf@, old(self).pos as int, n as int) && v@ == old(
                    self,
                ).buf@.subrange(old(self).pos as int, old(self).pos + n) && final(self).moved(
                    *old(self),
                    n as int,
                ),
                Err(e) => !fits(old(self).buf@, old(self).pos as int, n as int) && e@
                    == WalDecodeErrorV::Truncated(what@),
            },
    {
        match self.skip(n, what) {
            Ok(at) => Ok(copy_range(self.buf, at, at + n)),
            Err(e) => Err(e),
        }
    }
}

fn read_image_header(c: &mut Cursor) -> (r: Result<ImageMeta, WalDecodeError>)
    requires
        old(c).wf(),
    ensures
        match r {
            Ok(m) => image_header(old(c).buf@, old(c).pos as int) == Ok::<_, WalDecodeErrorV>(
                (m, final(c).pos as int),
            ) && final(c).wf() && final(c).buf == old(c).buf,
            Err(e) => image_header(old(c).buf@, old(c).pos as int) == Err::<
                (ImageMeta, int),
                WalDecodeErrorV,
            >(e@),
        },
{
    let bimg_len: u16 = c.u16("bimg_len")?;
    let hole_offset: u16 = c.u16("hole_offset")?;
    let bimg_info: u8 = c.u8("bimg_info")?;
    let has_hole = bimg_info & BKPIMAGE_HAS_HOLE != 0;
    let hole_length: u16 = if has_hole && bimg_info & BKPIMAGE_COMPRESSED != 0 {
        c.u16("hole_length")?
    } else if has_hole {
        let full: u16 = XLOG_BLCKSZ as u16;
        full.wrapping_sub(bimg_len)
    } else {
        0
    };
    Ok(
        ImageMeta {
            bimg_len: bimg_len as usize,
            hole_offset,
            hole_length,
            compression: compression_from_info(bimg_info),
            apply: bimg_info & BKPIMAGE_APPLY != 0,
        },
    )
}


fn read_locator(c: &mut Cursor, same_rel: bool, last: Option<Locator>) -> (r: Result<
    Locator,
    WalDecodeError,
>)
    requires
        old(c).wf(),
    ensures
        match r {
            Ok(l) => locator(old(c).buf@, old(c).pos as int, same_rel, last) == Ok::<
                _,
                WalDecodeErrorV,
            >((l, final(c).pos as int)) && final(c).wf() && final(c).buf == old(c).buf,
            Err(e) => locator(old(c).buf@, old(c).pos as int, same_rel, last) == Err::<
                (Locator, int),
                WalDecodeErrorV,
            >(e@),
        },
{
    if same_rel {
        match last {
            Some(l) => Ok(l),
            None => Err(WalDecodeError::SameRelWithoutPrev),
        }
    } else {
        let spc: u32 = c.u32("spcOid")?;
        let db: u32 = c.u32("dbOid")?;
        let relnode: u32 = c.u32("relNumber")?;
        Ok((spc, db, relnode))
    }
}

fn read_block_header(c: &mut Cursor, last: Option<Locator>) -> (r: Result<
    (BlockWork, Locator),
    WalDecodeError,
>)
    requires
        old(c).wf(),
    ensures
        match r {
            Ok((b, l)) => block_header(old(c).buf@, old(c).pos as int, last) == Ok::<
                _,
                WalDecodeErrorV,
            >((b, l, final(c).pos as int)) && final(c).wf() && final(c).buf == old(c).buf,
            Err(e) => block_header(old(c).buf@, old(c).pos as int, last) == Err::<
                (BlockWork, Locator, int),
                WalDecodeErrorV,
            >(e@),
        },
{
    let fork_flags: u8 = c.u8("fork_flags")?;
    let data_len: u16 = c.u16("block data_len")?;
    let image_meta = if fork_flags & BKPBLOCK_HAS_IMAGE != 0 {
        Some(read_image_header(c)?)
    } else {
        None
    };
    let l = read_locator(c, fork_flags & BKPBLOCK_SAME_REL != 0, last)?;
    let blkno: u32 = c.u32("blkno")?;
    let fork_raw: u8 = fork_flags & BKPBLOCK_FORK_MASK;
    match ForkNumber::from_raw(fork_raw) {
        None => Err(WalDecodeError::BadFork(fork_raw)),
        Some(fork) => Ok(
            (
                BlockWork {
                    rel: RelTag { spc_node: l.0, db_node: l.1, rel_node: l.2, fork },
                    blkno,
                    will_init: fork_flags & BKPBLOCK_WILL_INIT != 0,
                    has_data: fork_flags & BKPBLOCK_HAS_DATA != 0,
                    data_len: data_len as usize,
                    image_meta,
                },
                l,
            ),
        ),
    }
}

fn read_header_section(c: &mut Cursor) -> (r: Result<(Vec<BlockWork>, usize), WalDecodeError>)
    requires
        old(c).wf(),
    ensures
        match r {
            Ok((work, main_len)) => header_section(
                old(c).buf@,
                old(c).pos as int,
                None,
                Seq::empty(),
            ) == Ok::<_, WalDecodeErrorV>((work@, main_len as int, final(c).pos as int))
                && final(c).wf() && final(c).buf == old(c).buf,
            Err(e) => header_section(old(c).buf@, old(c).pos as int, None, Seq::empty()) == Err::<
                (Seq<BlockWork>, int, int),
                WalDecodeErrorV,
            >(e@),
        },
{
    let mut work: Vec<BlockWork> = Vec::new();
    let mut last: Option<Locator> = None;
    loop
        invariant
            c.wf(),
            c.buf == old(c).buf,
            header_section(c.buf@, c.pos as int, last, work@) == header_section(
                old(c).buf@,
                old(c).pos as int,
                None,
                Seq::empty(),
            ),
        decreases c.buf@.len() - c.pos,
    {
        let block_id: u8 = c.u8("block_id")?;
        if block_id == XLR_BLOCK_ID_DATA_SHORT {
            let n: u8 = c.u8("main_data_len")?;
            return Ok((work, n as usize));
        } else if block_id == XLR_BLOCK_ID_DATA_LONG {
            let n: u32 = c.u32("main_data_len")?;
            return Ok((work, n as usize));
        } else if block_id == XLR_BLOCK_ID_ORIGIN {
            let _at: usize = c.skip(2, "replication origin")?;
        } else if block_id == XLR_BLOCK_ID_TOPLEVEL_XID {
            let _at: usize = c.skip(8, "toplevel xid")?;
        } else if block_id <= XLR_MAX_BLOCK_ID {
            let (b, l) = read_block_header(c, last)?;
            last = Some(l);
            work.push(b);
        } else {
            return Err(WalDecodeError::BadBlockId(block_id));
        }
    }
}

fn read_block_body(c: &mut Cursor, b: &BlockWork) -> (r: Result<DecodedBlock, WalDecodeError>)
    requires
        old(c).wf(),
    ensures
        match r {
            Ok(d) => block_body(old(c).buf@, old(c).pos as int, *b) == Ok::<_, WalDecodeErrorV>(
                (d@, final(c).pos as int),
            ) && final(c).wf() && final(c).buf == old(c).buf,
            Err(e) => block_body(old(c).buf@, old(c).pos as int, *b) == Err::<
                (BlockV, int),
                WalDecodeErrorV,
            >(e@),
        },
{
    let image = match &b.image_meta {
        Some(meta) => {
            let bytes = c.take(meta.bimg_len, "block image")?;
            Some(
                DecodedImage {
                    bytes,
                    hole_offset: meta.hole_offset,
                    hole_length: meta.hole_length,
                    compression: meta.compression,
                    apply: meta.apply,
                },
            )
        },
        None => None,
    };
    let data = if b.has_data {
        c.take(b.data_len, "block data")?
    } else {
        Vec::new()
    };
    let d = DecodedBlock { rel: b.rel, blkno: b.blkno, will_init: b.will_init, image, data };
    assert(!b.has_data ==> d@.data =~= Seq::<u8>::empty());
    Ok(d)
}

fn read_data_section(c: &mut Cursor, work: &Vec<BlockWork>) -> (r: Result<
    Vec<DecodedBlock>,
    WalDecodeError,
>)
    requires
        old(c).wf(),
    ensures
        match r {
            Ok(d) => data_section(old(c).buf@, old(c).pos as int, work@, 0, Seq::empty()) == Ok::<
                _,
                WalDecodeErrorV,
            >((blocks_view(d@), final(c).pos as int)) && final(c).wf() && final(c).buf == old(
                c,
            ).buf,
            Err(e) => data_section(old(c).buf@, old(c).pos as int, work@, 0, Seq::empty()) == Err::<
                (Seq<BlockV>, int),
                WalDecodeErrorV,
            >(e@),
        },
{
    let mut blocks: Vec<DecodedBlock> = Vec::new();
    let mut i: usize = 0;
    assert(blocks_view(blocks@) =~= Seq::empty());
    while i < work.len()
        invariant
            c.wf(),
            c.buf == old(c).buf,
            i <= work@.len(),
            data_section(c.buf@, c.pos as int, work@, i as int, blocks_view(blocks@))
                == data_section(old(c).buf@, old(c).pos as int, work@, 0, Seq::empty()),
        decreases work@.len() - i,
    {
        let ghost before = blocks_view(blocks@);
        let d = read_block_body(c, &work[i])?;
        let ghost dv = d@;
        blocks.push(d);
        assert(blocks_view(blocks@) =~= before.push(dv));
        i += 1;
    }
    Ok(blocks)
}

/// What a decoding attempt came to.
pub open spec fn record_result(r: Result<DecodedWalRecord, WalDecodeError>) -> Result<
    RecordV,
    WalDecodeErrorV,
> {
    match r {
        Ok(d) => Ok(d@),
        Err(e) => Err(e@),
    }
}

/// Decode a single complete WAL record into its block references.
///
/// `lsn` is the record's start position, kept on the result for indexing.
pub fn decode_wal_record(lsn: Lsn, record: &[u8]) -> (r: Result<DecodedWalRecord, WalDecodeError>)
    ensures
        record_result(r) == decoded(lsn, record@),
{
    assert(record.len() == record@.len());
    let mut c = Cursor { buf: record, pos: 0 };
    let xl_tot_len: u32 = c.u32("xl_tot_len")?;
    let xl_xid: u32 = c.u32("xl_xid")?;
    let _xl_prev: usize = c.skip(8, "xl_prev")?;
    let xl_info: u8 = c.u8("xl_info")?;
    let xl_rmid: u8 = c.u8("xl_rmid")?;
    let _padding: usize = c.skip(2, "xl_padding")?;
    let _xl_crc: u32 = c.u32("xl_crc")?;
    if (xl_tot_len as usize) < SIZE_OF_XLOG_RECORD {
        return Err(WalDecodeError::ShortTotalLen(xl_tot_len));
    }
    if xl_tot_len as usize != record.len() {
        return Err(WalDecodeError::BadTotalLen { declared: xl_tot_len, actual: record.len() });
    }
    let (work, main_data_len) = read_header_section(&mut c)?;
    let blocks = read_data_section(&mut c, &work)?;
    let main_data = c.take(main_data_len, "main data")?;
    Ok(DecodedWalRecord { lsn, rmid: xl_rmid, info: xl_info, xid: xl_xid, main_data, blocks })
}


// ---------------------------------------------------------------------------
// The stream
// ---------------------------------------------------------------------------

/// What a [`WalStreamDecoder`] holds: `buf[0]` stands at position `lsn`.
pub struct StreamV {
    pub lsn: int,
    pub seg: int,
    pub check: bool,
    pub buf: Seq<u8>,
}

impl StreamV {
    /// The stream with more bytes behind it.
    pub open spec fn feed(self, more: Seq<u8>) -> StreamV {
        StreamV { buf: self.buf + more, ..self }
    }

    /// The stream without its first `n` bytes.
    pub open spec fn consume(self, n: int) -> StreamV {
        StreamV { lsn: self.lsn + n, buf: self.buf.skip(n), ..self }
    }
}

/// Size of the page header at position `lsn`.
pub open spec fn header_len(seg: int, lsn: int) -> int {
    if lsn % seg == 0 {
        SIZE_OF_XLOG_LONG_PHD as int
    } else {
        SIZE_OF_XLOG_SHORT_PHD as int
    }
}

/// What came of collecting payload bytes.
pub enum Collected {
    /// Not enough bytes were fed yet.
    Need,
    /// A page header carried this magic number.
    BadMagic(u16),
    /// The payload, how many raw bytes it spans, and where its first byte stands.
    Done { payload: Seq<u8>, raw: int, start: int },
}

/// Collect payload up to `n` bytes, `out` being had already, from offset `off`
/// on: page by page, over the header in front of each page that is entered at
/// its start.
pub open spec fn collect(v: StreamV, off: int, n: int, out: Seq<u8>, first: Option<int>) -> Collected
    decreases v.buf.len() - off,
{
    let lsn = v.lsn + off;
    if off < 0 || off > v.buf.len() {
        Collected::Need
    } else if out.len() >= n {
        Collected::Done {
            payload: out,
            raw: off,
            start: match first {
                Some(f) => f,
                None => lsn,
            },
        }
    } else if lsn % XLOG_BLCKSZ as int == 0 {
        let h = header_len(v.seg, lsn);
        if off + h > v.buf.len() {
            Collected::Need
        } else if v.check && le16(v.buf, off) != XLOG_PAGE_MAGIC_PG16 {
            Collected::BadMagic(le16(v.buf, off))
        } else {
            collect(v, off + h, n, out, first)
        }
    } else {
        let left = XLOG_BLCKSZ as int - lsn % XLOG_BLCKSZ as int;
        let want = if n - out.len() < left {
            n - out.len()
        } else {
            left
        };
        if off + want > v.buf.len() {
            Collected::Need
        } else {
            collect(
                v,
                off + want,
                n,
                out + v.buf.subrange(off, off + want),
                match first {
                    Some(f) => Some(f),
                    None => Some(lsn),
                },
            )
        }
    }
}

/// Collect the next `n` payload bytes.
pub open spec fn collected(v: StreamV, n: int) -> Collected {
    collect(v, 0, n, Seq::empty(), None)
}

/// What a poll of the stream gives.
pub enum Polled {
    /// Not enough bytes were fed yet.
    Need,
    /// A page header carried this magic number.
    BadMagic(u16),
    /// A record, and where it starts.
    Record(int, Seq<u8>),
}

/// The stream without the padding in front of the next record, if it is there.
pub open spec fn aligned(v: StreamV) -> Option<StreamV> {
    let misalign = v.lsn % 8;
    if misalign == 0 {
        Some(v)
    } else if 8 - misalign > v.buf.len() {
        None
    } else {
        Some(v.consume(8 - misalign))
    }
}

/// Where the page behind position `lsn` starts.
pub open spec fn next_page(lsn: int) -> int {
    (lsn / XLOG_BLCKSZ as int + 1) * XLOG_BLCKSZ as int
}

/// The next record of the stream, and the stream behind it. A length shorter
/// than a record header ends the valid WAL of a page: the rest of the page is
/// skipped.
pub open spec fn polled(v: StreamV) -> (Polled, StreamV)
    decreases v.buf.len(),
    via polled_decreases
{
    match aligned(v) {
        None => (Polled::Need, v),
        Some(a) => match collected(a, 4) {
            Collected::Need => (Polled::Need, a),
            Collected::BadMagic(m) => (Polled::BadMagic(m), a),
            Collected::Done { payload, raw, start } => {
                let total = le_value(payload) as int;
                let skip = next_page(start) - a.lsn;
                if total < SIZE_OF_XLOG_RECORD {
                    if skip > a.buf.len() {
                        (Polled::Need, a)
                    } else {
                        polled(a.consume(skip))
                    }
                } else {
                    match collected(a, total) {
                        Collected::Need => (Polled::Need, a),
                        Collected::BadMagic(m) => (Polled::BadMagic(m), a),
                        Collected::Done { payload, raw, start } => (
                            Polled::Record(start, payload),
                            a.consume(raw),
                        ),
                    }
                }
            },
        },
    }
}

pub proof fn lemma_collect(v: StreamV, off: int, n: int, out: Seq<u8>, first: Option<int>)
    requires
        0 <= off <= v.buf.len(),
        out.len() <= n || n < 0,
        first matches Some(f) ==> v.lsn <= f <= v.lsn + off,
    ensures
        collect(v, off, n, out, first) matches Collected::Done { payload, raw, start } ==> {
            &&& off <= raw <= v.buf.len()
            &&& v.lsn <= start <= v.lsn + raw
            &&& n >= 0 ==> payload.len() == n
            &&& raw - off >= n - out.len()
        },
    decreases v.buf.len() - off,
{
    let lsn = v.lsn + off;
    if out.len() < n {
        if lsn % XLOG_BLCKSZ as int == 0 {
            let h = header_len(v.seg, lsn);
            if off + h <= v.buf.len() {
                lemma_collect(v, off + h, n, out, first);
            }
        } else {
            let left = XLOG_BLCKSZ as int - lsn % XLOG_BLCKSZ as int;
            let want = if n - out.len() < left {
                n - out.len()
            } else {
                left
            };
            if off + want <= v.buf.len() {
                lemma_collect(
                    v,
                    off + want,
                    n,
                    out + v.buf.subrange(off, off + want),
                    match first {
                        Some(f) => Some(f),
                        None => Some(lsn),
                    },
                );
            }
        }
    }
}

#[via_fn]
proof fn polled_decreases(v: StreamV) {
    if let Some(a) = aligned(v) {
        lemma_collect(a, 0, 4, Seq::empty(), None);
    }
}

/// Frames a raw WAL byte stream into whole records.
///
/// Feed bytes with [`feed_bytes`](Self::feed_bytes) and pull complete records
/// with [`poll_decode`](Self::poll_decode); the decoder keeps the absolute
/// position, so it knows where page and segment headers stand.
pub struct WalStreamDecoder {
    /// Position of `buf[0]`, the next unconsumed byte in the stream.
    lsn: u64,
    /// WAL segment size; long page headers stand at each segment boundary.
    wal_seg_size: u64,
    /// Whether to hold the page headers to the magic number of PostgreSQL 16.
    check_magic: bool,
    /// Unconsumed stream bytes.
    buf: Vec<u8>,
}

impl View for WalStreamDecoder {
    type V = StreamV;

    closed spec fn view(&self) -> StreamV {
        StreamV {
            lsn: self.lsn as int,
            seg: self.wal_seg_size as int,
            check: self.check_magic,
            buf: self.buf@,
        }
    }
}

/// Whether all positions of a stream, and the page behind it, can be counted.
pub open spec fn stream_wf(v: StreamV) -> bool {
    &&& 0 <= v.lsn
    &&& 0 < v.seg <= u64::MAX
    &&& v.lsn + v.buf.len() + XLOG_BLCKSZ <= u64::MAX
}

/// What a poll came to.
pub open spec fn poll_result(r: Result<Option<(Lsn, Vec<u8>)>, WalDecodeError>) -> Option<Polled> {
    match r {
        Ok(None) => Some(Polled::Need),
        Ok(Some((l, rec))) => Some(Polled::Record(l.0 as int, rec@)),
        Err(WalDecodeError::BadPageMagic { got, want }) => if want == XLOG_PAGE_MAGIC_PG16 {
            Some(Polled::BadMagic(got))
        } else {
            None
        },
        Err(_) => None,
    }
}

impl WalStreamDecoder {
    /// Whether all positions that the decoder holds can be counted.
    pub open spec fn wf(self) -> bool {
        stream_wf(self@)
    }

    /// Start decoding at `start_lsn`, which must be a record boundary.
    pub fn new(start_lsn: Lsn) -> (r: WalStreamDecoder)
        ensures
            r@ == (StreamV {
                lsn: start_lsn.0 as int,
                seg: DEFAULT_WAL_SEG_SIZE as int,
                check: true,
                buf: Seq::empty(),
            }),
    {
        WalStreamDecoder {
            lsn: start_lsn.raw(),
            wal_seg_size: DEFAULT_WAL_SEG_SIZE,
            check_magic: true,
            buf: Vec::new(),
        }
    }

    /// Override the WAL segment size (default 16 MiB).
    pub fn with_segment_size(self, seg_size: u64) -> (r: WalStreamDecoder)
        requires
            seg_size > 0,
        ensures
            r@ == (StreamV { seg: seg_size as int, ..self@ }),
    {
        WalStreamDecoder {
            lsn: self.lsn,
            wal_seg_size: seg_size,
            check_magic: self.check_magic,
            buf: self.buf,
        }
    }

    /// Accept any magic number in the page headers.
    pub fn without_magic_check(self) -> (r: WalStreamDecoder)
        ensures
            r@ == (StreamV { check: false, ..self@ }),
    {
        WalStreamDecoder {
            lsn: self.lsn,
            wal_seg_size: self.wal_seg_size,
            check_magic: false,
            buf: self.buf,
        }
    }

    /// The position of the next unconsumed byte.
    pub fn lsn(&self) -> (r: Lsn)
        ensures
            r.0 == self@.lsn,
    {
        Lsn(self.lsn)
    }

    /// How many bytes are held back.
    pub fn buffered(&self) -> (r: usize)
        ensures
            r == self@.buf.len(),
    {
        self.buf.len()
    }

    /// Append more raw stream bytes.
    pub fn feed_bytes(&mut self, bytes: &[u8])
        ensures
            final(self)@ == old(self)@.feed(bytes@),
    {
        crate::bytes::put_slice(&mut self.buf, bytes);
    }

    /// Size of the page header at position `lsn`.
    fn page_header_size(&self, lsn: u64) -> (r: usize)
        requires
            self.wf(),
        ensures
            r == header_len(self@.seg, lsn as int),
    {
        if lsn % self.wal_seg_size == 0 {
            SIZE_OF_XLOG_LONG_PHD
        } else {
            SIZE_OF_XLOG_SHORT_PHD
        }
    }

    /// Hold the page header at `buf[off]` to the expected magic number.
    fn check_page_header(&self, off: usize) -> (r: Result<(), WalDecodeError>)
        requires
            off + 2 <= self@.buf.len(),
        ensures
            r is Ok <==> !(self@.check && le16(self@.buf, off as int) != XLOG_PAGE_MAGIC_PG16),
            r matches Err(e) ==> e == (WalDecodeError::BadPageMagic {
                got: le16(self@.buf, off as int),
                want: XLOG_PAGE_MAGIC_PG16,
            }),
    {
        if !self.check_magic {
            return Ok(());
        }
        let magic: u16 = le_u16(self.buf.as_slice(), off);
        if magic != XLOG_PAGE_MAGIC_PG16 {
            return Err(WalDecodeError::BadPageMagic { got: magic, want: XLOG_PAGE_MAGIC_PG16 });
        }
        Ok(())
    }

    /// Collect `n` payload bytes from the current position on, over the page
    /// headers on the way: the payload, the number of raw bytes it spans, and
    /// the position of its first byte.
    fn collect_payload(&self, n: usize) -> (r: Result<Option<(Vec<u8>, usize, u64)>, WalDecodeError>)
        requires
            self.wf(),
        ensures
            match collected(self@, n as int) {
                Collected::Need => r == Ok::<Option<(Vec<u8>, usize, u64)>, WalDecodeError>(None),
                Collected::BadMagic(m) => r == Err::<
                    Option<(Vec<u8>, usize, u64)>,
                    WalDecodeError,
                >(WalDecodeError::BadPageMagic { got: m, want: XLOG_PAGE_MAGIC_PG16 }),
                Collected::Done { payload, raw, start } => r matches Ok(Some(d)) && d.0@ == payload
                    && d.1 == raw && d.2 == start,
            },
    {
        let mut out: Vec<u8> = Vec::new();
        let mut off: usize = 0;
        let mut first: Option<u64> = None;
        while out.len() < n
            invariant
                self.wf(),
                off <= self@.buf.len(),
                out@.len() <= n,
                collected(self@, n as int) == collect(
                    self@,
                    off as int,
                    n as int,
                    out@,
                    match first {
                        Some(f) => Some(f as int),
                        None => None,
                    },
                ),
            decreases self@.buf.len() - off,
        {
            let lsn: u64 = self.lsn + off as u64;
            let in_page: u64 = lsn % XLOG_BLCKSZ as u64;
            if in_page == 0 {
                let h: usize = self.page_header_size(lsn);
                if h > self.buf.len() - off {
                    return Ok(None);
                }
                self.check_page_header(off)?;
                off = off + h;
                continue ;
            }
            if first.is_none() {
                first = Some(lsn);
            }
            let left: usize = XLOG_BLCKSZ - in_page as usize;
            let want: usize = if n - out.len() < left {
                n - out.len()
            } else {
                left
            };
            if want > self.buf.len() - off {
                return Ok(None);
            }
            let part = vstd::slice::slice_subrange(self.buf.as_slice(), off, off + want);
            crate::bytes::put_slice(&mut out, part);
            off = off + want;
        }
        let start: u64 = match first {
            Some(f) => f,
            None => self.lsn + off as u64,
        };
        Ok(Some((out, off, start)))
    }

    /// Drop `raw` bytes from the front and advance the position.
    fn consume(&mut self, raw: usize)
        requires
            old(self).wf(),
            raw <= old(self)@.buf.len(),
        ensures
            final(self)@ == old(self)@.consume(raw as int),
            final(self).wf(),
    {
        let rest = self.buf.split_off(raw);
        assert(rest@ =~= old(self).buf@.skip(raw as int));
        self.buf = rest;
        self.lsn = self.lsn + raw as u64;
    }

    /// Decode the next complete record; `Ok(None)` when more bytes are needed.
    pub fn poll_decode(&mut self) -> (r: Result<Option<(Lsn, Vec<u8>)>, WalDecodeError>)
        requires
            old(self).wf(),
        ensures
            poll_result(r) == Some(polled(old(self)@).0),
            final(self)@ == polled(old(self)@).1,
            final(self).wf(),
    {
        loop
            invariant
                self.wf(),
                polled(self@) == polled(old(self)@),
            decreases self@.buf.len(),
        {
            let ghost before = self@;
            let misalign: usize = (self.lsn % 8) as usize;
            if misalign != 0 {
                let pad: usize = 8 - misalign;
                if pad > self.buf.len() {
                    return Ok(None);
                }
                self.consume(pad);
            }
            let ghost a = self@;
            assert(aligned(before) == Some(a));
            proof {
                lemma_collect(a, 0, 4, Seq::empty(), None);
            }
            let (len_bytes, _raw, start) = match self.collect_payload(4)? {
                Some(v) => v,
                None => return Ok(None),
            };
            assert(len_bytes@.subrange(0, 4) =~= len_bytes@);
            let total: u32 = le_u32(len_bytes.as_slice(), 0);
            if (total as usize) < SIZE_OF_XLOG_RECORD {
                let next: u64 = (start / XLOG_BLCKSZ as u64 + 1) * XLOG_BLCKSZ as u64;
                let skip: u64 = next - self.lsn;
                if skip > self.buf.len() as u64 {
                    return Ok(None);
                }
                self.consume(skip as usize);
                continue ;
            }
            proof {
                lemma_collect(a, 0, total as int, Seq::empty(), None);
            }
            let (record, raw, start) = match self.collect_payload(total as usize)? {
                Some(v) => v,
                None => return Ok(None),
            };
            self.consume(raw);
            return Ok(Some((Lsn(start), record)));
        }
    }
}


// ---------------------------------------------------------------------------
// Laws of the stream
// ---------------------------------------------------------------------------

/// All records that the stream gives until it needs more bytes or meets a bad
/// page header, with the magic number of that header, and the stream left over.
pub open spec fn drained(v: StreamV) -> (Seq<(int, Seq<u8>)>, Option<u16>, StreamV)
    decreases v.buf.len(),
    via drained_decreases
{
    match polled(v) {
        (Polled::Need, rest) => (Seq::empty(), None, rest),
        (Polled::BadMagic(m), rest) => (Seq::empty(), Some(m), rest),
        (Polled::Record(start, rec), rest) => {
            let (recs, bad, end) = drained(rest);
            (seq![(start, rec)] + recs, bad, end)
        },
    }
}

/// What is left of a stream after a poll is a suffix of it.
pub proof fn lemma_polled(v: StreamV)
    ensures
        ({
            let (p, rest) = polled(v);
            &&& rest.seg == v.seg
            &&& rest.check == v.check
            &&& rest.buf.len() <= v.buf.len()
            &&& rest.lsn + rest.buf.len() == v.lsn + v.buf.len()
            &&& p is Record ==> rest.buf.len() < v.buf.len()
        }),
    decreases v.buf.len(),
{
    if let Some(a) = aligned(v) {
        lemma_collect(a, 0, 4, Seq::empty(), None);
        if let Collected::Done { payload, raw, start } = collected(a, 4) {
            let total = le_value(payload) as int;
            let skip = next_page(start) - a.lsn;
            if total < SIZE_OF_XLOG_RECORD {
                if skip <= a.buf.len() {
                    lemma_polled(a.consume(skip));
                }
            } else {
                lemma_collect(a, 0, total, Seq::empty(), None);
            }
        }
    }
}

#[via_fn]
proof fn drained_decreases(v: StreamV) {
    lemma_polled(v);
}

/// What was collected without need for more bytes does not change when more
/// bytes come.
proof fn lemma_collect_extend(
    v: StreamV,
    more: Seq<u8>,
    off: int,
    n: int,
    out: Seq<u8>,
    first: Option<int>,
)
    requires
        !(collect(v, off, n, out, first) is Need),
    ensures
        collect(v.feed(more), off, n, out, first) == collect(v, off, n, out, first),
    decreases v.buf.len() - off,
{
    let w = v.feed(more);
    let lsn = v.lsn + off;
    if out.len() < n {
        if lsn % XLOG_BLCKSZ as int == 0 {
            let h = header_len(v.seg, lsn);
            assert(w.buf.subrange(off, off + 2) =~= v.buf.subrange(off, off + 2));
            if !(v.check && le16(v.buf, off) != XLOG_PAGE_MAGIC_PG16) {
                lemma_collect_extend(v, more, off + h, n, out, first);
            }
        } else {
            let left = XLOG_BLCKSZ as int - lsn % XLOG_BLCKSZ as int;
            let want = if n - out.len() < left {
                n - out.len()
            } else {
                left
            };
            assert(w.buf.subrange(off, off + want) =~= v.buf.subrange(off, off + want));
            lemma_collect_extend(
                v,
                more,
                off + want,
                n,
                out + v.buf.subrange(off, off + want),
                match first {
                    Some(f) => Some(f),
                    None => Some(lsn),
                },
            );
        }
    }
}

/// More bytes do not change the records that are complete, and a poll that
/// needed more goes on from where it stopped.
pub proof fn lemma_polled_extend(v: StreamV, more: Seq<u8>)
    ensures
        ({
            let (p, rest) = polled(v);
            if p is Need {
                polled(v.feed(more)) == polled(rest.feed(more))
            } else {
                polled(v.feed(more)) == (p, rest.feed(more))
            }
        }),
    decreases v.buf.len(),
{
    let w = v.feed(more);
    if let Some(a) = aligned(v) {
        let b = a.feed(more);
        assert(v.lsn % 8 != 0 ==> w.buf.skip(8 - v.lsn % 8) =~= a.buf + more);
        assert(aligned(w) == Some(b));
        assert(aligned(b) == Some(b));
        assert(polled(w) == polled(b));
        lemma_collect(a, 0, 4, Seq::empty(), None);
        match collected(a, 4) {
            Collected::Need => {},
            Collected::BadMagic(m) => {
                lemma_collect_extend(a, more, 0, 4, Seq::empty(), None);
            },
            Collected::Done { payload, raw, start } => {
                lemma_collect_extend(a, more, 0, 4, Seq::empty(), None);
                let total = le_value(payload) as int;
                let skip = next_page(start) - a.lsn;
                if total < SIZE_OF_XLOG_RECORD {
                    if skip <= a.buf.len() {
                        lemma_polled_extend(a.consume(skip), more);
                        assert(b.buf.skip(skip) =~= a.buf.skip(skip) + more);
                        assert(b.consume(skip) == a.consume(skip).feed(more));
                    }
                } else {
                    lemma_collect(a, 0, total, Seq::empty(), None);
                    match collected(a, total) {
                        Collected::Need => {},
                        Collected::BadMagic(m) => {
                            lemma_collect_extend(a, more, 0, total, Seq::empty(), None);
                        },
                        Collected::Done { payload, raw, start } => {
                            lemma_collect_extend(a, more, 0, total, Seq::empty(), None);
                            assert(b.buf.skip(raw) =~= a.buf.skip(raw) + more);
                        },
                    }
                }
            },
        }
    }
}

/// A bad page header stays in front: polled again, the stream meets it again and
/// stays where it is.
pub proof fn lemma_bad_again(v: StreamV)
    requires
        polled(v).0 is BadMagic,
    ensures
        polled(polled(v).1) == polled(v),
    decreases v.buf.len(),
{
    if let Some(a) = aligned(v) {
        assert(aligned(a) == Some(a));
        lemma_collect(a, 0, 4, Seq::empty(), None);
        if let Collected::Done { payload, raw, start } = collected(a, 4) {
            let skip = next_page(start) - a.lsn;
            if le_value(payload) < SIZE_OF_XLOG_RECORD && skip <= a.buf.len() {
                lemma_bad_again(a.consume(skip));
            }
        }
    }
}

/// How the stream is cut into two chunks makes no difference: the records drained
/// from a first chunk, followed by those drained once the second chunk came,
/// are the records drained from both at once, what ends the draining is the same,
/// and so is the stream left over. A bad page header in the first chunk is met
/// again, whatever comes behind it.
pub proof fn chunking_is_irrelevant(v: StreamV, more: Seq<u8>)
    ensures
        ({
            let (recs, bad, rest) = drained(v);
            let (recs2, bad2, end) = drained(rest.feed(more));
            &&& drained(v.feed(more)) == (recs + recs2, bad2, end)
            &&& bad is Some ==> recs2.len() == 0 && bad2 == bad && end == rest.feed(more)
        }),
    decreases v.buf.len(),
{
    lemma_polled(v);
    lemma_polled_extend(v, more);
    let (p, rest) = polled(v);
    match p {
        Polled::Need => {
            let (recs2, bad2, end) = drained(rest.feed(more));
            assert(Seq::<(int, Seq<u8>)>::empty() + recs2 =~= recs2);
            assert(drained(v.feed(more)) == drained(rest.feed(more)));
        },
        Polled::BadMagic(m) => {
            lemma_bad_again(v);
            lemma_polled_extend(rest, more);
            assert(drained(rest.feed(more)) == (
                Seq::<(int, Seq<u8>)>::empty(),
                Some(m),
                rest.feed(more),
            ));
            assert(drained(v.feed(more)) == drained(rest.feed(more)));
            assert(Seq::<(int, Seq<u8>)>::empty() + Seq::<(int, Seq<u8>)>::empty() =~= Seq::<
                (int, Seq<u8>),
            >::empty());
        },
        Polled::Record(start, rec) => {
            chunking_is_irrelevant(rest, more);
            let (recs, bad, r) = drained(rest);
            let (recs2, bad2, end) = drained(r.feed(more));
            assert(seq![(start, rec)] + (recs + recs2) =~= (seq![(start, rec)] + recs) + recs2);
        },
    }
}

/// The records drained from a stream that comes in chunks, all complete ones after
/// each chunk, what ended the last draining, and the stream left over.
pub open spec fn drained_in_chunks(v: StreamV, chunks: Seq<Seq<u8>>) -> (
    Seq<(int, Seq<u8>)>,
    Option<u16>,
    StreamV,
)
    decreases chunks.len(),
{
    if chunks.len() == 0 {
        drained(v)
    } else {
        let (recs, _, rest) = drained_in_chunks(v, chunks.drop_last());
        let (recs2, bad, end) = drained(rest.feed(chunks.last()));
        (recs + recs2, bad, end)
    }
}

/// However the stream is cut into chunks, the records, what ends the draining and
/// the stream left over are those of the whole stream at once.
pub proof fn any_chunking_is_irrelevant(v: StreamV, chunks: Seq<Seq<u8>>)
    ensures
        drained_in_chunks(v, chunks) == drained(v.feed(chunks.flatten())),
    decreases chunks.len(),
{
    chunks.lemma_flatten_and_flatten_alt_are_equivalent();
    if chunks.len() == 0 {
        assert(v.buf + chunks.flatten() =~= v.buf);
    } else {
        let before = chunks.drop_last();
        before.lemma_flatten_and_flatten_alt_are_equivalent();
        any_chunking_is_irrelevant(v, before);
        let w = v.feed(before.flatten());
        chunking_is_irrelevant(w, chunks.last());
        assert(w.feed(chunks.last()).buf =~= v.feed(chunks.flatten()).buf);
    }
}

/// What was collected stays, and so does where it starts.
proof fn lemma_collect_extends(v: StreamV, off: int, n: int, out: Seq<u8>, first: Option<int>)
    requires
        out.len() <= n,
    ensures
        collect(v, off, n, out, first) matches Collected::Done { payload, raw, start } ==> {
            &&& out.len() <= payload.len()
            &&& payload.take(out.len() as int) == out
            &&& first matches Some(f) ==> start == f
        },
    decreases v.buf.len() - off,
{
    let lsn = v.lsn + off;
    if 0 <= off <= v.buf.len() && out.len() < n {
        if lsn % XLOG_BLCKSZ as int == 0 {
            let h = header_len(v.seg, lsn);
            if off + h <= v.buf.len() {
                lemma_collect_extends(v, off + h, n, out, first);
            }
        } else {
            let left = XLOG_BLCKSZ as int - lsn % XLOG_BLCKSZ as int;
            let want = if n - out.len() < left {
                n - out.len()
            } else {
                left
            };
            if off + want <= v.buf.len() {
                let more = out + v.buf.subrange(off, off + want);
                let now = match first {
                    Some(f) => Some(f),
                    None => Some(lsn),
                };
                lemma_collect_extends(v, off + want, n, more, now);
                if let Collected::Done { payload, raw, start } = collect(v, off + want, n, more, now) {
                    assert(payload.take(out.len() as int) =~= more.take(out.len() as int));
                    assert(more.take(out.len() as int) =~= out);
                }
            }
        }
    } else if out.len() >= n {
        assert(out.take(out.len() as int) =~= out);
    }
}

/// A longer payload from the same place starts with the shorter one.
proof fn lemma_collect_prefix(
    v: StreamV,
    off: int,
    n: int,
    m: int,
    out: Seq<u8>,
    first: Option<int>,
)
    requires
        out.len() <= n <= m,
    ensures
        match (collect(v, off, n, out, first), collect(v, off, m, out, first)) {
            (
                Collected::Done { payload: short, .. },
                Collected::Done { payload: long, .. },
            ) => short.len() <= long.len() && long.take(short.len() as int) == short,
            _ => true,
        },
    decreases v.buf.len() - off,
{
    let lsn = v.lsn + off;
    if 0 <= off <= v.buf.len() {
        if out.len() >= n {
            lemma_collect_extends(v, off, m, out, first);
        } else if lsn % XLOG_BLCKSZ as int == 0 {
            let h = header_len(v.seg, lsn);
            if off + h <= v.buf.len() {
                lemma_collect_prefix(v, off + h, n, m, out, first);
            }
        } else {
            let left = XLOG_BLCKSZ as int - lsn % XLOG_BLCKSZ as int;
            let now = match first {
                Some(f) => Some(f),
                None => Some(lsn),
            };
            if n - out.len() >= left {
                if off + left <= v.buf.len() {
                    lemma_collect_prefix(
                        v,
                        off + left,
                        n,
                        m,
                        out + v.buf.subrange(off, off + left),
                        now,
                    );
                }
            } else {
                let a = n - out.len();
                let b = if m - out.len() < left {
                    m - out.len()
                } else {
                    left
                };
                if off + b <= v.buf.len() {
                    let short = out + v.buf.subrange(off, off + a);
                    let more = out + v.buf.subrange(off, off + b);
                    lemma_collect_extends(v, off + b, m, more, now);
                    assert(collect(v, off, n, out, first) == collect(v, off + a, n, short, now));
                    if let Collected::Done { payload: long, .. } = collect(v, off, m, out, first) {
                        assert(long.take(short.len() as int) =~= more.take(short.len() as int));
                        assert(more.take(short.len() as int) =~= short);
                    }
                }
            }
        }
    }
}

/// Page headers keep the alignment: a payload that is looked for at an aligned
/// position starts at one.
proof fn lemma_collect_aligned(v: StreamV, off: int, n: int)
    requires
        0 < n,
        (v.lsn + off) % 8 == 0,
    ensures
        collect(v, off, n, Seq::empty(), None) matches Collected::Done { payload, raw, start }
            ==> start % 8 == 0,
    decreases v.buf.len() - off,
{
    let lsn = v.lsn + off;
    if 0 <= off <= v.buf.len() {
        if lsn % XLOG_BLCKSZ as int == 0 {
            let h = header_len(v.seg, lsn);
            if off + h <= v.buf.len() {
                lemma_collect_aligned(v, off + h, n);
            }
        } else {
            let left = XLOG_BLCKSZ as int - lsn % XLOG_BLCKSZ as int;
            let want = if n < left {
                n
            } else {
                left
            };
            if off + want <= v.buf.len() {
                let out = Seq::<u8>::empty() + v.buf.subrange(off, off + want);
                lemma_collect_extends(v, off + want, n, out, Some(lsn));
            }
        }
    }
}

/// A record that a poll gives is whole: it starts at a multiple of 8, holds at
/// least a record header, and is as long as its first four bytes say.
pub proof fn polled_records_are_whole(v: StreamV)
    ensures
        polled(v).0 matches Polled::Record(start, rec) ==> {
            &&& start % 8 == 0
            &&& rec.len() >= SIZE_OF_XLOG_RECORD
            &&& le_value(rec.take(4)) == rec.len()
        },
    decreases v.buf.len(),
{
    if let Some(a) = aligned(v) {
        lemma_collect(a, 0, 4, Seq::empty(), None);
        if let Collected::Done { payload, raw, start } = collected(a, 4) {
            let total = le_value(payload) as int;
            let skip = next_page(start) - a.lsn;
            if total < SIZE_OF_XLOG_RECORD {
                if skip <= a.buf.len() {
                    polled_records_are_whole(a.consume(skip));
                }
            } else {
                lemma_collect(a, 0, total, Seq::empty(), None);
                lemma_collect_prefix(a, 0, 4, total, Seq::empty(), None);
                lemma_collect_aligned(a, 0, total);
            }
        }
    }
}

/// So are all records that are drained from a stream.
pub proof fn drained_records_are_whole(v: StreamV, i: int)
    requires
        0 <= i < drained(v).0.len(),
    ensures
        ({
            let (start, rec) = drained(v).0[i];
            &&& start % 8 == 0
            &&& rec.len() >= SIZE_OF_XLOG_RECORD
            &&& le_value(rec.take(4)) == rec.len()
        }),
    decreases v.buf.len(),
{
    lemma_polled(v);
    polled_records_are_whole(v);
    let (p, rest) = polled(v);
    if let Polled::Record(start, rec) = p {
        let recs = drained(rest).0;
        if i > 0 {
            assert(drained(v).0[i] == recs[i - 1]);
            drained_records_are_whole(rest, i - 1);
        }
    }
}

/// The raw bytes of `payload` written from position `lsn` on: a page header in
/// front of each page that is entered at its start, `header` giving its bytes.
pub open spec fn laid_out(
    seg: int,
    header: spec_fn(int) -> Seq<u8>,
    lsn: int,
    payload: Seq<u8>,
) -> Seq<u8>
    decreases payload.len(), (if lsn % XLOG_BLCKSZ as int == 0 { 1int } else { 0int }),
    via laid_out_decreases
{
    if payload.len() == 0 {
        Seq::empty()
    } else if lsn % XLOG_BLCKSZ as int == 0 {
        header(lsn) + laid_out(seg, header, lsn + header_len(seg, lsn), payload)
    } else {
        let left = XLOG_BLCKSZ as int - lsn % XLOG_BLCKSZ as int;
        if payload.len() <= left {
            payload
        } else {
            payload.take(left) + laid_out(seg, header, lsn + left, payload.skip(left))
        }
    }
}

#[via_fn]
proof fn laid_out_decreases(
    seg: int,
    header: spec_fn(int) -> Seq<u8>,
    lsn: int,
    payload: Seq<u8>,
) {
}

/// Headers of the right size and with the right magic number.
pub open spec fn good_headers(seg: int, header: spec_fn(int) -> Seq<u8>) -> bool {
    forall|lsn: int|
        (#[trigger] header(lsn)).len() == header_len(seg, lsn) && le16(header(lsn), 0)
            == XLOG_PAGE_MAGIC_PG16
}

/// Where the first payload byte stands that is written from `lsn` on.
pub open spec fn payload_start(seg: int, lsn: int) -> int {
    if lsn % XLOG_BLCKSZ as int == 0 {
        lsn + header_len(seg, lsn)
    } else {
        lsn
    }
}

proof fn lemma_collect_laid_out(
    v: StreamV,
    header: spec_fn(int) -> Seq<u8>,
    off: int,
    rest: Seq<u8>,
    n: int,
    out: Seq<u8>,
    first: Option<int>,
)
    requires
        good_headers(v.seg, header),
        0 <= off <= v.buf.len(),
        out.len() <= n <= out.len() + rest.len(),
        ({
            let raw = laid_out(v.seg, header, v.lsn + off, rest);
            &&& off + raw.len() <= v.buf.len()
            &&& v.buf.subrange(off, off + raw.len()) == raw
        }),
    ensures
        ({
            let c = collect(v, off, n, out, first);
            &&& c is Done
            &&& c->payload == out + rest.take(n - out.len())
            &&& n == out.len() + rest.len() ==> c->raw == off + laid_out(
                v.seg,
                header,
                v.lsn + off,
                rest,
            ).len()
            &&& c->start == (match first {
                Some(f) => f,
                None => if n > out.len() {
                    payload_start(v.seg, v.lsn + off)
                } else {
                    v.lsn + off
                },
            })
        }),
    decreases rest.len(), (if (v.lsn + off) % XLOG_BLCKSZ as int == 0 { 1int } else { 0int }),
{
    let lsn = v.lsn + off;
    let raw = laid_out(v.seg, header, lsn, rest);
    if out.len() == n {
        assert(out + rest.take(0) =~= out);
        if rest.len() == 0 {
            assert(raw.len() == 0);
        }
    } else if lsn % XLOG_BLCKSZ as int == 0 {
        let h = header_len(v.seg, lsn);
        let tail = laid_out(v.seg, header, lsn + h, rest);
        assert(raw == header(lsn) + tail);
        assert(v.buf.subrange(off, off + 2) =~= raw.subrange(0, 2));
        assert(raw.subrange(0, 2) =~= header(lsn).subrange(0, 2));
        assert(v.buf.subrange(off + h, off + h + tail.len()) =~= raw.subrange(
            h,
            h + tail.len(),
        ));
        assert(raw.subrange(h, h + tail.len()) =~= tail);
        assert((lsn + h) % XLOG_BLCKSZ as int != 0);
        lemma_collect_laid_out(v, header, off + h, rest, n, out, first);
    } else {
        let left = XLOG_BLCKSZ as int - lsn % XLOG_BLCKSZ as int;
        let want = if n - out.len() < left {
            n - out.len()
        } else {
            left
        };
        let now = Some(
            match first {
                Some(f) => f,
                None => lsn,
            },
        );
        let piece = v.buf.subrange(off, off + want);
        assert(piece =~= raw.subrange(0, want));
        assert(piece =~= rest.take(want));
        if want == n - out.len() {
            assert(collect(v, off + want, n, out + piece, now) is Done);
            if n == out.len() + rest.len() {
                assert(raw.len() == want) by {
                    if rest.len() > left {
                    } else {
                        assert(raw == rest);
                    }
                }
            }
        } else {
            assert(rest.len() > left);
            let tail = laid_out(v.seg, header, lsn + left, rest.skip(left));
            assert(raw == rest.take(left) + tail);
            assert(v.buf.subrange(off + left, off + left + tail.len()) =~= raw.subrange(
                left,
                left + tail.len(),
            ));
            assert(raw.subrange(left, left + tail.len()) =~= tail);
            lemma_collect_laid_out(v, header, off + left, rest.skip(left), n, out + piece, now);
            assert(out + piece + rest.skip(left).take(n - out.len() - left) =~= out + rest.take(
                n - out.len(),
            ));
        }
    }
}

/// A record that was laid out in WAL pages from an aligned position on is
/// polled back whole, whatever follows it, and the stream goes on behind it.
pub proof fn laid_out_record_is_polled(
    v: StreamV,
    header: spec_fn(int) -> Seq<u8>,
    record: Seq<u8>,
    follows: Seq<u8>,
)
    requires
        v.seg > 0,
        v.lsn >= 0,
        v.lsn % 8 == 0,
        good_headers(v.seg, header),
        record.len() >= SIZE_OF_XLOG_RECORD,
        le_value(record.take(4)) == record.len(),
        v.buf == laid_out(v.seg, header, v.lsn, record) + follows,
    ensures
        polled(v).0 == Polled::Record(payload_start(v.seg, v.lsn), record),
        polled(v).1.buf == follows,
        polled(v).1.lsn == v.lsn + laid_out(v.seg, header, v.lsn, record).len(),
{
    let raw = laid_out(v.seg, header, v.lsn, record);
    assert(v.buf.subrange(0, raw.len() as int) =~= raw);
    lemma_collect_laid_out(v, header, 0, record, 4, Seq::empty(), None);
    lemma_collect_laid_out(v, header, 0, record, record.len() as int, Seq::empty(), None);
    assert(Seq::<u8>::empty() + record.take(4) =~= record.take(4));
    assert(Seq::<u8>::empty() + record.take(record.len() as int) =~= record);
    assert(v.buf.skip(raw.len() as int) =~= follows);
}

} // verus!
