//! WAL records and WAL streams.

use aetheldb::common::lsn::Lsn;
use aetheldb::common::page::{ForkNumber, RelTag};
use aetheldb::pageserver::waldecode::{
    decode_wal_record, Compression, DecodedImage, WalDecodeError, WalStreamDecoder,
    BKPBLOCK_FORK_MASK, BKPBLOCK_HAS_DATA, BKPBLOCK_HAS_IMAGE, BKPBLOCK_SAME_REL,
    BKPBLOCK_WILL_INIT, BKPIMAGE_APPLY, BKPIMAGE_HAS_HOLE, SIZE_OF_XLOG_LONG_PHD,
    SIZE_OF_XLOG_RECORD, SIZE_OF_XLOG_SHORT_PHD, XLOG_BLCKSZ, XLOG_PAGE_MAGIC_PG16,
    XLR_BLOCK_ID_DATA_LONG, XLR_BLOCK_ID_DATA_SHORT,
};

/// Page header flag: the first record is continued from the previous page.
const FIRST_IS_CONTRECORD: u16 = 0x0001;

/// Page header flag: the header is a long one.
const LONG_HEADER: u16 = 0x0002;

// Builders for synthetic WAL.

/// Build one XLogRecord image (header + body), filling a valid `xl_tot_len`.
/// `body` is everything after the 24-byte header.
fn make_record(rmid: u8, info: u8, xid: u32, body: &[u8]) -> Vec<u8> {
    let tot = SIZE_OF_XLOG_RECORD + body.len();
    let mut r = Vec::with_capacity(tot);
    r.extend_from_slice(&(tot as u32).to_le_bytes()); // xl_tot_len
    r.extend_from_slice(&xid.to_le_bytes()); // xl_xid
    r.extend_from_slice(&0u64.to_le_bytes()); // xl_prev
    r.push(info); // xl_info
    r.push(rmid); // xl_rmid
    r.extend_from_slice(&[0u8, 0u8]); // padding
    r.extend_from_slice(&0u32.to_le_bytes()); // xl_crc (unchecked here)
    r.extend_from_slice(body);
    r
}

/// A block header with no image and no data (just a rel + blkno reference).
fn block_ref(
    block_id: u8,
    fork: u8,
    rel: (u32, u32, u32),
    blkno: u32,
    same_rel: bool,
) -> Vec<u8> {
    let mut b = Vec::new();
    b.push(block_id);
    let mut fork_flags = fork & BKPBLOCK_FORK_MASK;
    if same_rel {
        fork_flags |= BKPBLOCK_SAME_REL;
    }
    b.push(fork_flags);
    b.extend_from_slice(&0u16.to_le_bytes()); // data_len = 0
    if !same_rel {
        b.extend_from_slice(&rel.0.to_le_bytes());
        b.extend_from_slice(&rel.1.to_le_bytes());
        b.extend_from_slice(&rel.2.to_le_bytes());
    }
    b.extend_from_slice(&blkno.to_le_bytes());
    b
}

/// The main-data length marker (short form) that terminates the headers.
fn main_short(len: u8) -> Vec<u8> {
    vec![XLR_BLOCK_ID_DATA_SHORT, len]
}

/// The main-data length marker (long form) for payloads > 255 bytes.
fn main_long(len: u32) -> Vec<u8> {
    let mut v = vec![XLR_BLOCK_ID_DATA_LONG];
    v.extend_from_slice(&len.to_le_bytes());
    v
}

#[test]
fn decodes_single_block_reference() {
    let mut body = block_ref(0, ForkNumber::Main as u8, (1663, 5, 16384), 42, false);
    body.extend_from_slice(&main_short(3));
    body.extend_from_slice(&[0xAA, 0xBB, 0xCC]); // main data
    let rec = make_record(10, 0x20, 777, &body);

    let d = decode_wal_record(Lsn(0x100), &rec).unwrap();
    assert_eq!(d.lsn, Lsn(0x100));
    assert_eq!(d.rmid, 10);
    assert_eq!(d.xid, 777);
    assert_eq!(d.main_data, vec![0xAA, 0xBB, 0xCC]);
    assert_eq!(d.blocks.len(), 1);
    let b = &d.blocks[0];
    assert_eq!(
        b.rel,
        RelTag { spc_node: 1663, db_node: 5, rel_node: 16384, fork: ForkNumber::Main }
    );
    assert_eq!(b.blkno, 42);
    assert!(b.image.is_none());
    assert!(b.data.is_empty());
}

#[test]
fn same_rel_inherits_previous_locator() {
    let mut body = block_ref(0, ForkNumber::Main as u8, (1663, 5, 16384), 1, false);
    // Second block reuses the relation, different fork + block.
    body.extend_from_slice(&block_ref(1, ForkNumber::Fsm as u8, (0, 0, 0), 2, true));
    body.extend_from_slice(&main_short(0));
    let rec = make_record(11, 0, 1, &body);

    let d = decode_wal_record(Lsn(7), &rec).unwrap();
    assert_eq!(d.blocks.len(), 2);
    assert_eq!(d.blocks[1].rel.rel_node, 16384); // inherited
    assert_eq!(d.blocks[1].rel.fork, ForkNumber::Fsm); // but its own fork
    assert_eq!(d.blocks[1].blkno, 2);
}

#[test]
fn same_rel_without_previous_is_rejected() {
    let mut body = block_ref(0, ForkNumber::Main as u8, (0, 0, 0), 9, true);
    body.extend_from_slice(&main_short(0));
    let rec = make_record(1, 0, 0, &body);
    assert_eq!(decode_wal_record(Lsn(0), &rec), Err(WalDecodeError::SameRelWithoutPrev));
}

#[test]
fn decodes_full_page_image_with_hole_and_restores_it() {
    // Construct a page: nonzero before and after a zero hole.
    let hole_offset = 100usize;
    let hole_length = 200usize;
    let stored_len = XLOG_BLCKSZ - hole_length;
    let mut stored = vec![0u8; stored_len];
    for (i, b) in stored.iter_mut().enumerate() {
        *b = (i % 251) as u8 + 1; // all nonzero so the hole is distinguishable
    }

    // Block header with image.
    let mut body = Vec::new();
    body.push(0u8); // block_id
    let fork_flags = (ForkNumber::Main as u8) | BKPBLOCK_HAS_IMAGE;
    body.push(fork_flags);
    body.extend_from_slice(&0u16.to_le_bytes()); // data_len = 0
                                                 // XLogRecordBlockImageHeader
    body.extend_from_slice(&(stored_len as u16).to_le_bytes()); // bimg_len
    body.extend_from_slice(&(hole_offset as u16).to_le_bytes()); // hole_offset
    body.push(BKPIMAGE_HAS_HOLE | BKPIMAGE_APPLY); // bimg_info, uncompressed
                                                   // RelFileLocator + blkno
    body.extend_from_slice(&1663u32.to_le_bytes());
    body.extend_from_slice(&5u32.to_le_bytes());
    body.extend_from_slice(&16384u32.to_le_bytes());
    body.extend_from_slice(&0u32.to_le_bytes()); // blkno
    body.extend_from_slice(&main_short(0));
    // data section: the stored image bytes, then (empty) main data
    body.extend_from_slice(&stored);

    let rec = make_record(0, 0, 0, &body);
    let d = decode_wal_record(Lsn(0x2000), &rec).unwrap();
    let img = d.blocks[0].image.as_ref().expect("image present");
    assert_eq!(img.hole_offset, hole_offset as u16);
    assert_eq!(img.hole_length, hole_length as u16);
    assert_eq!(img.compression, Compression::Verbatim);
    assert!(img.apply);

    let page = img.restore().unwrap();
    assert_eq!(page.len(), XLOG_BLCKSZ);
    // Hole is zero; surrounding bytes match the stored image.
    assert!(page[hole_offset..hole_offset + hole_length].iter().all(|&b| b == 0));
    assert_eq!(&page[..hole_offset], &stored[..hole_offset]);
    assert_eq!(&page[hole_offset + hole_length..], &stored[hole_offset..]);
}

#[test]
fn compressed_image_restore_is_unsupported_not_wrong() {
    let img = DecodedImage {
        bytes: vec![1, 2, 3],
        hole_offset: 0,
        hole_length: 0,
        compression: Compression::Zstd,
        apply: false,
    };
    assert_eq!(img.restore(), Err(WalDecodeError::UnsupportedCompression(Compression::Zstd)));
}

#[test]
fn rejects_bad_total_len() {
    let body = main_short(0);
    let mut rec = make_record(0, 0, 0, &body);
    // Corrupt xl_tot_len to claim more than the buffer holds.
    let bad = (rec.len() as u32 + 10).to_le_bytes();
    rec[0..4].copy_from_slice(&bad);
    assert!(matches!(decode_wal_record(Lsn(0), &rec), Err(WalDecodeError::BadTotalLen { .. })));
}

#[test]
fn rejects_illegal_block_id() {
    // 100 is > XLR_MAX_BLOCK_ID and not a known sentinel.
    let body = vec![100u8];
    let rec = make_record(0, 0, 0, &body);
    assert_eq!(decode_wal_record(Lsn(0), &rec), Err(WalDecodeError::BadBlockId(100)));
}

// Stream framing.

/// Build a short page header at `pageaddr`.
fn short_page_header(pageaddr: u64, is_contrecord: bool, rem_len: u32) -> Vec<u8> {
    let mut h = Vec::with_capacity(SIZE_OF_XLOG_SHORT_PHD);
    h.extend_from_slice(&XLOG_PAGE_MAGIC_PG16.to_le_bytes()); // xlp_magic
    let info: u16 = if is_contrecord { FIRST_IS_CONTRECORD } else { 0 };
    h.extend_from_slice(&info.to_le_bytes()); // xlp_info
    h.extend_from_slice(&1u32.to_le_bytes()); // xlp_tli
    h.extend_from_slice(&pageaddr.to_le_bytes()); // xlp_pageaddr
    h.extend_from_slice(&rem_len.to_le_bytes()); // xlp_rem_len
    h.resize(SIZE_OF_XLOG_SHORT_PHD, 0); // pad to MAXALIGN
    h
}

#[test]
fn stream_yields_two_records_within_a_page() {
    // Page starts at LSN 0 with a long header; put two records after it.
    let mut long_hdr = short_page_header(0, false, 0);
    long_hdr.resize(SIZE_OF_XLOG_LONG_PHD, 0); // promote to long header size
                                               // Mark the long-header flag.
    let info = LONG_HEADER;
    long_hdr[2..4].copy_from_slice(&info.to_le_bytes());

    let mut body1 = block_ref(0, ForkNumber::Main as u8, (1, 2, 3), 10, false);
    body1.extend_from_slice(&main_short(0));
    let rec1 = make_record(5, 0, 1, &body1);

    let mut body2 = block_ref(0, ForkNumber::Main as u8, (1, 2, 3), 20, false);
    body2.extend_from_slice(&main_short(0));
    let rec2 = make_record(6, 0, 2, &body2);

    let mut stream = long_hdr.clone();
    stream.extend_from_slice(&rec1);
    // MAXALIGN pad after rec1.
    let pad1 = (8 - (rec1.len() % 8)) % 8;
    stream.extend(std::iter::repeat(0u8).take(pad1));
    let rec2_lsn = stream.len() as u64;
    stream.extend_from_slice(&rec2);

    let mut dec = WalStreamDecoder::new(Lsn(0));
    dec.feed_bytes(&stream);

    let (lsn1, got1) = dec.poll_decode().unwrap().expect("record 1");
    assert_eq!(lsn1, Lsn(SIZE_OF_XLOG_LONG_PHD as u64));
    assert_eq!(got1, rec1);

    let (lsn2, got2) = dec.poll_decode().unwrap().expect("record 2");
    assert_eq!(lsn2, Lsn(rec2_lsn));
    assert_eq!(got2, rec2);

    // Decoded content checks out too.
    let d2 = decode_wal_record(lsn2, &got2).unwrap();
    assert_eq!(d2.blocks[0].blkno, 20);

    assert!(dec.poll_decode().unwrap().is_none());
}

#[test]
fn stream_stitches_a_record_across_a_page_boundary() {
    // Lay out a record that straddles the boundary between page 0 and 1.
    // Page 0: long header + first half of the record.
    // Page 1: short (contrecord) header + second half.
    let mut body = block_ref(0, ForkNumber::Main as u8, (9, 9, 9), 99, false);
    // Pad the record out with enough main data (> one page) so it is forced
    // to span the page boundary. Needs the long marker (len > 255).
    let main_len: u32 = 9000;
    body.extend_from_slice(&main_long(main_len));
    body.extend(std::iter::repeat(0xEEu8).take(main_len as usize));
    let rec = make_record(7, 0, 3, &body);

    // Long header on page 0.
    let mut page0 = short_page_header(0, false, 0);
    page0.resize(SIZE_OF_XLOG_LONG_PHD, 0);
    page0[2..4].copy_from_slice(&LONG_HEADER.to_le_bytes());

    // Choose a split so the record crosses into page 1.
    let avail_page0 = XLOG_BLCKSZ - SIZE_OF_XLOG_LONG_PHD;
    let first = avail_page0.min(rec.len());
    assert!(first < rec.len(), "record should span the boundary");
    page0.extend_from_slice(&rec[..first]);
    // Fill the rest of page 0 (none here, since first == avail_page0).
    assert_eq!(page0.len(), XLOG_BLCKSZ);

    // Page 1: contrecord short header carrying the remaining bytes.
    let rem = rec.len() - first;
    let mut page1 = short_page_header(XLOG_BLCKSZ as u64, true, rem as u32);
    page1.extend_from_slice(&rec[first..]);

    let mut stream = page0;
    stream.extend_from_slice(&page1);

    let mut dec = WalStreamDecoder::new(Lsn(0));
    dec.feed_bytes(&stream);

    let (lsn, got) = dec.poll_decode().unwrap().expect("spanning record");
    assert_eq!(lsn, Lsn(SIZE_OF_XLOG_LONG_PHD as u64));
    assert_eq!(got, rec, "reassembled record must match the original");
    let d = decode_wal_record(lsn, &got).unwrap();
    assert_eq!(d.blocks[0].blkno, 99);
    assert_eq!(d.main_data.len(), main_len as usize);
}

#[test]
fn stream_returns_none_until_full_record_is_fed() {
    let mut body = block_ref(0, ForkNumber::Main as u8, (1, 1, 1), 5, false);
    body.extend_from_slice(&main_short(0));
    let rec = make_record(5, 0, 1, &body);

    let mut hdr = short_page_header(0, false, 0);
    hdr.resize(SIZE_OF_XLOG_LONG_PHD, 0);
    hdr[2..4].copy_from_slice(&LONG_HEADER.to_le_bytes());

    let mut dec = WalStreamDecoder::new(Lsn(0));
    dec.feed_bytes(&hdr);
    dec.feed_bytes(&rec[..rec.len() - 2]); // partial record
    assert!(dec.poll_decode().unwrap().is_none());

    dec.feed_bytes(&rec[rec.len() - 2..]); // the rest
    let (_, got) = dec.poll_decode().unwrap().expect("record after full feed");
    assert_eq!(got, rec);
}

#[test]
fn block_data_and_flags_are_read() {
    let mut body = vec![3u8, BKPBLOCK_HAS_DATA | BKPBLOCK_WILL_INIT | (ForkNumber::VisibilityMap as u8)];
    body.extend_from_slice(&2u16.to_le_bytes());
    for n in [1u32, 2, 3, 9] {
        body.extend_from_slice(&n.to_le_bytes());
    }
    body.extend_from_slice(&main_short(1));
    body.extend_from_slice(&[7, 8, 9]);
    let d = decode_wal_record(Lsn(1), &make_record(4, 0x51, 6, &body)).unwrap();
    assert_eq!(d.info, 0x51);
    assert!(d.blocks[0].will_init);
    assert_eq!(d.blocks[0].data, vec![7, 8]);
    assert_eq!(d.blocks[0].rel.fork, ForkNumber::VisibilityMap);
    assert_eq!(d.main_data, vec![9]);
}

#[test]
fn every_fault_of_a_record_has_its_error() {
    let good = make_record(0, 0, 0, &main_short(0));
    assert!(decode_wal_record(Lsn(0), &good).is_ok());
    assert!(matches!(decode_wal_record(Lsn(0), &good[..10]), Err(WalDecodeError::Truncated(_))));
    let mut short = good.clone();
    short[0..4].copy_from_slice(&7u32.to_le_bytes());
    let e = decode_wal_record(Lsn(0), &short);
    assert!(matches!(
        e,
        Err(WalDecodeError::ShortTotalLen(7)) | Err(WalDecodeError::BadTotalLen { declared: 7, .. })
    ));
    let mut body = block_ref(0, 9, (1, 2, 3), 1, false);
    body.extend_from_slice(&main_short(0));
    assert_eq!(
        decode_wal_record(Lsn(0), &make_record(0, 0, 0, &body)),
        Err(WalDecodeError::BadFork(9))
    );
    let body = main_short(5);
    assert!(matches!(
        decode_wal_record(Lsn(0), &make_record(0, 0, 0, &body)),
        Err(WalDecodeError::Truncated(_))
    ));
}

#[test]
fn odd_images_are_not_restored() {
    let image = |bytes: Vec<u8>, hole_offset, hole_length, compression| DecodedImage {
        bytes,
        hole_offset,
        hole_length,
        compression,
        apply: true,
    };
    let e = image(vec![1; 10], 0, 0, Compression::Verbatim).restore();
    assert_eq!(e, Err(WalDecodeError::BadImageSize { got: 10, want: XLOG_BLCKSZ }));
    let e = image(vec![1; 8000], 8100, 192, Compression::Verbatim).restore();
    assert_eq!(e, Err(WalDecodeError::BadHole { offset: 8100, length: 192 }));
    let whole = image(vec![5; XLOG_BLCKSZ], 0, 0, Compression::Verbatim).restore().unwrap();
    assert_eq!(whole, vec![5; XLOG_BLCKSZ]);
    for c in [Compression::Pglz, Compression::Lz4, Compression::Zstd] {
        let e = image(vec![1], 0, 0, c).restore().unwrap_err();
        assert_eq!(e, WalDecodeError::UnsupportedCompression(c));
        assert!(e.to_string().contains(c.name()), "{}", e.to_string());
    }
}

#[test]
fn a_wrong_page_magic_is_refused() {
    let mut page = short_page_header(0, false, 0);
    page.resize(SIZE_OF_XLOG_LONG_PHD, 0);
    page[2..4].copy_from_slice(&LONG_HEADER.to_le_bytes());
    page[0..2].copy_from_slice(&0x1234u16.to_le_bytes());
    let rec = make_record(5, 0, 1, &main_short(0));
    page.extend_from_slice(&rec);
    let mut dec = WalStreamDecoder::new(Lsn(0));
    dec.feed_bytes(&page);
    assert_eq!(
        dec.poll_decode(),
        Err(WalDecodeError::BadPageMagic { got: 0x1234, want: XLOG_PAGE_MAGIC_PG16 })
    );
    let mut dec = WalStreamDecoder::new(Lsn(0)).without_magic_check();
    dec.feed_bytes(&page);
    assert_eq!(dec.poll_decode().unwrap(), Some((Lsn(40), rec)));
}

#[test]
fn chunks_do_not_matter() {
    let mut stream = short_page_header(0, false, 0);
    stream.resize(SIZE_OF_XLOG_LONG_PHD, 0);
    stream[2..4].copy_from_slice(&LONG_HEADER.to_le_bytes());
    for n in 0..5u8 {
        let mut body = block_ref(0, 0, (1, 2, 3), n as u32, false);
        body.extend_from_slice(&main_short(n));
        body.extend(std::iter::repeat(n).take(n as usize));
        stream.extend_from_slice(&make_record(n, 0, 0, &body));
        while stream.len() % 8 != 0 {
            stream.push(0);
        }
    }
    let drain = |dec: &mut WalStreamDecoder, out: &mut Vec<(Lsn, Vec<u8>)>| {
        while let Some(r) = dec.poll_decode().unwrap() {
            out.push(r);
        }
    };
    let mut whole = Vec::new();
    let mut dec = WalStreamDecoder::new(Lsn(0));
    dec.feed_bytes(&stream);
    drain(&mut dec, &mut whole);
    assert_eq!(whole.len(), 5);
    for size in [1, 3, 8, 100] {
        let mut got = Vec::new();
        let mut dec = WalStreamDecoder::new(Lsn(0));
        for chunk in stream.chunks(size) {
            dec.feed_bytes(chunk);
            drain(&mut dec, &mut got);
        }
        assert_eq!(got, whole);
    }
}

#[test]
fn a_decoder_knows_where_it_is() {
    let mut dec = WalStreamDecoder::new(Lsn(8192 * 3)).with_segment_size(8192 * 2);
    assert_eq!(dec.lsn(), Lsn(8192 * 3));
    assert_eq!(dec.buffered(), 0);
    dec.feed_bytes(&[1, 2, 3]);
    assert_eq!(dec.buffered(), 3);
    assert_eq!(dec.poll_decode(), Ok(None));
}

#[test]
fn decode_errors_say_what_they_are() {
    assert!(WalDecodeError::BadBlockId(100).to_string().contains("100"));
    assert!(WalDecodeError::Truncated("block").to_string().contains("block"));
    assert!(WalDecodeError::BadFork(9).to_string().contains("9"));
}

#[test]
fn records_of_another_length_are_refused() {
    let mut body = block_ref(0, 0, (1, 2, 3), 4, false);
    body.extend_from_slice(&main_short(2));
    body.extend_from_slice(&[8, 8]);
    let rec = make_record(5, 0, 1, &body);
    assert!(decode_wal_record(Lsn(8), &rec).is_ok());
    for n in 0..rec.len() {
        let e = decode_wal_record(Lsn(8), &rec[..n]).unwrap_err();
        if n < SIZE_OF_XLOG_RECORD {
            assert!(matches!(e, WalDecodeError::Truncated(_)), "at {n}");
        } else {
            assert_eq!(
                e,
                WalDecodeError::BadTotalLen { declared: rec.len() as u32, actual: n },
                "at {n}"
            );
        }
    }
    let mut longer = rec.clone();
    longer.push(0);
    assert_eq!(
        decode_wal_record(Lsn(8), &longer).unwrap_err(),
        WalDecodeError::BadTotalLen { declared: rec.len() as u32, actual: rec.len() + 1 }
    );
}

#[test]
fn chunks_do_not_matter_around_a_bad_page() {
    // A good page with one record and nothing behind it, then a page with a wrong
    // magic number.
    let mut stream = short_page_header(0, false, 0);
    stream.resize(SIZE_OF_XLOG_LONG_PHD, 0);
    stream[2..4].copy_from_slice(&LONG_HEADER.to_le_bytes());
    stream.extend_from_slice(&make_record(5, 0, 1, &main_short(0)));
    stream.resize(XLOG_BLCKSZ as usize, 0);
    let mut next = short_page_header(XLOG_BLCKSZ as u64, false, 0);
    next[0..2].copy_from_slice(&0x1234u16.to_le_bytes());
    stream.extend_from_slice(&next);
    stream.extend_from_slice(&make_record(5, 0, 2, &main_short(0)));

    let drain = |dec: &mut WalStreamDecoder, out: &mut Vec<(Lsn, Vec<u8>)>| loop {
        match dec.poll_decode() {
            Ok(Some(r)) => out.push(r),
            Ok(None) => return None,
            Err(e) => return Some(e),
        }
    };
    let mut whole = Vec::new();
    let mut all = WalStreamDecoder::new(Lsn(0));
    all.feed_bytes(&stream);
    let end = drain(&mut all, &mut whole);
    assert_eq!(whole.len(), 1);
    assert_eq!(
        end,
        Some(WalDecodeError::BadPageMagic { got: 0x1234, want: XLOG_PAGE_MAGIC_PG16 })
    );
    for size in [1, 7, 1000, 8200] {
        let mut got = Vec::new();
        let mut dec = WalStreamDecoder::new(Lsn(0));
        let mut last = None;
        for chunk in stream.chunks(size) {
            dec.feed_bytes(chunk);
            last = drain(&mut dec, &mut got);
        }
        assert_eq!(got, whole);
        assert_eq!(last, end);
        assert_eq!(dec.lsn(), all.lsn());
        assert_eq!(dec.buffered(), all.buffered());
    }
}
