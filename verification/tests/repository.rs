//! One timeline's page versions.

use std::sync::Arc;

use aetheldb::common::lsn::Lsn;
use aetheldb::common::page::{ForkNumber, PageKey, RelTag, PAGE_SIZE};
use aetheldb::pageserver::layer::Layer;
use aetheldb::pageserver::offload::{layer_key, offload_jobs, LAYER_PREFIX};
use aetheldb::pageserver::page::{ByteEdit, Modification, PageError, PageVersion, WalRecord};
use aetheldb::pageserver::repository::{PageLookup, Repository};
use aetheldb::pageserver::waldecode::{
    WalDecodeError, WalStreamDecoder, SIZE_OF_XLOG_LONG_PHD, XLOG_PAGE_MAGIC_PG16,
};
use aetheldb::pageserver::walredo::RustApplyRedoManager;

fn rel() -> RelTag {
    RelTag { spc_node: 1, db_node: 2, rel_node: 3, fork: ForkNumber::Main }
}

fn key(block: u32) -> PageKey {
    PageKey { rel: rel(), block }
}

fn base_image(byte: u8) -> Modification {
    Modification {
        rel: rel(),
        block: 0,
        lsn: Lsn(10),
        version: PageVersion::Image(vec![byte; PAGE_SIZE]),
    }
}

fn edit(offset: u16, byte: u8, lsn: u64) -> Modification {
    Modification {
        rel: rel(),
        block: 0,
        lsn: Lsn(lsn),
        version: PageVersion::Delta(vec![ByteEdit { offset, data: vec![byte] }]),
    }
}

#[test]
fn reconstructs_image_plus_deltas_at_each_lsn() {
    let mut repo = Repository::new(1_000);
    repo.ingest(vec![
        base_image(0),
        Modification {
            rel: rel(),
            block: 0,
            lsn: Lsn(20),
            version: PageVersion::Delta(vec![ByteEdit { offset: 0, data: vec![0xAA] }]),
        },
        Modification {
            rel: rel(),
            block: 0,
            lsn: Lsn(30),
            version: PageVersion::Delta(vec![ByteEdit { offset: 1, data: vec![0xBB] }]),
        },
    ]);

    // At LSN 10: just the base image.
    match repo.get_page(key(0), Lsn(10)).unwrap() {
        PageLookup::Page(p) => assert_eq!(p[0], 0),
        other => panic!("{other:?}"),
    }
    // At LSN 25: base + first delta only.
    match repo.get_page(key(0), Lsn(25)).unwrap() {
        PageLookup::Page(p) => {
            assert_eq!(p[0], 0xAA);
            assert_eq!(p[1], 0);
        }
        other => panic!("{other:?}"),
    }
    // At LSN 30: base + both deltas.
    match repo.get_page(key(0), Lsn(30)).unwrap() {
        PageLookup::Page(p) => {
            assert_eq!(p[0], 0xAA);
            assert_eq!(p[1], 0xBB);
        }
        other => panic!("{other:?}"),
    }
}

#[test]
fn reconstruction_reads_across_frozen_layers() {
    let mut repo = Repository::new(1_000);
    repo.ingest(vec![base_image(7)]);
    repo.freeze(); // image now lives in a layer
    repo.ingest(vec![Modification {
        rel: rel(),
        block: 0,
        lsn: Lsn(20),
        version: PageVersion::Delta(vec![ByteEdit { offset: 0, data: vec![0x55] }]),
    }]);
    // Reconstruction must combine the layer's image with the memtable delta.
    match repo.get_page(key(0), Lsn(20)).unwrap() {
        PageLookup::Page(p) => {
            assert_eq!(p[0], 0x55);
            assert_eq!(p[1], 7);
        }
        other => panic!("{other:?}"),
    }
    assert_eq!(repo.layer_count(), 1);
}

#[test]
fn unknown_page_is_not_found() {
    let mut repo = Repository::new(1_000);
    repo.ingest(vec![base_image(0)]);
    assert_eq!(repo.get_page(key(999), Lsn(100)).unwrap(), PageLookup::NotFound);
    // A page whose first version is after the requested LSN is also absent.
    assert_eq!(repo.get_page(key(0), Lsn(5)).unwrap(), PageLookup::NotFound);
}

#[test]
fn rel_size_tracks_highest_block_over_lsn() {
    let mut repo = Repository::new(1_000);
    repo.ingest(vec![
        Modification {
            rel: rel(),
            block: 0,
            lsn: Lsn(10),
            version: PageVersion::Image(vec![0; PAGE_SIZE]),
        },
        Modification {
            rel: rel(),
            block: 4,
            lsn: Lsn(20),
            version: PageVersion::Image(vec![0; PAGE_SIZE]),
        },
    ]);
    assert_eq!(repo.get_rel_size(rel(), Lsn(10)), Some(1));
    assert_eq!(repo.get_rel_size(rel(), Lsn(20)), Some(5));
    assert_eq!(repo.get_rel_size(rel(), Lsn(100)), Some(5));
}

#[test]
fn memtable_freezes_at_threshold() {
    let mut repo = Repository::new(2);
    repo.ingest(vec![
        Modification {
            rel: rel(),
            block: 0,
            lsn: Lsn(10),
            version: PageVersion::Image(vec![0; PAGE_SIZE]),
        },
        Modification {
            rel: rel(),
            block: 1,
            lsn: Lsn(11),
            version: PageVersion::Image(vec![0; PAGE_SIZE]),
        },
    ]);
    // Two versions reached the threshold of 2 -> one frozen layer.
    assert_eq!(repo.layer_count(), 1);
}

#[test]
fn compaction_collapses_history_and_bounds_reads() {
    let mut repo = Repository::new(1); // freeze each write into its own layer
    let img = |byte: u8, lsn: u64| Modification {
        rel: rel(),
        block: 0,
        lsn: Lsn(lsn),
        version: PageVersion::Image(vec![byte; PAGE_SIZE]),
    };
    let d = |byte: u8, lsn: u64| Modification {
        rel: rel(),
        block: 0,
        lsn: Lsn(lsn),
        version: PageVersion::Delta(vec![ByteEdit { offset: 0, data: vec![byte] }]),
    };
    repo.ingest(vec![img(7, 10)]); // base
    repo.ingest(vec![d(0xAA, 20)]); // delta over base@10
    repo.ingest(vec![img(1, 30)]); // a newer full image supersedes
    repo.ingest(vec![d(0xBB, 40)]); // delta over image@30
    assert!(repo.layer_count() >= 4);

    // Compact at horizon 35: the latest base <= 35 is image@30, so image@10
    // and delta@20 become unreachable and are dropped.
    let stats = repo.compact(Lsn(35));
    assert_eq!(stats.layers_after, 1, "stack collapses to one layer");
    assert_eq!(stats.versions_removed, 2, "image@10 and delta@20 pruned");
    assert_eq!(stats.removed_layer_ids.len(), stats.layers_before);

    // Reads within the retention window are unchanged.
    match repo.get_page(key(0), Lsn(40)).unwrap() {
        PageLookup::Page(p) => {
            assert_eq!(p[0], 0xBB); // delta@40
            assert_eq!(p[1], 1); // from image@30
        }
        other => panic!("{other:?}"),
    }
    match repo.get_page(key(0), Lsn(30)).unwrap() {
        PageLookup::Page(p) => assert!(p.iter().all(|&b| b == 1)),
        other => panic!("{other:?}"),
    }
    // Below the horizon, the collapsed history is gone.
    assert_eq!(repo.get_page(key(0), Lsn(20)).unwrap(), PageLookup::NotFound);
}

#[test]
fn compaction_keeps_deltas_without_a_local_base() {
    // A delta with no base <= horizon must be retained (it may sit on top of
    // an inherited base on a branch).
    let mut repo = Repository::new(1);
    repo.ingest(vec![Modification {
        rel: rel(),
        block: 0,
        lsn: Lsn(30),
        version: PageVersion::Delta(vec![ByteEdit { offset: 0, data: vec![0x55] }]),
    }]);
    let stats = repo.compact(Lsn(100));
    assert_eq!(stats.versions_removed, 0, "a base-less delta is never pruned");
}

#[test]
fn freezing_changes_no_read() {
    let fill = |repo: &mut Repository<RustApplyRedoManager>| {
        repo.ingest(vec![base_image(3), edit(0, 0xAA, 20), edit(1, 0xBB, 30)]);
    };
    let mut warm = Repository::new(1_000);
    fill(&mut warm);
    let mut frozen = Repository::new(1_000);
    fill(&mut frozen);
    frozen.freeze();
    frozen.freeze(); // nothing left to freeze
    assert_eq!(frozen.layer_count(), 1);
    for lsn in [5, 10, 19, 20, 29, 30, 1000] {
        assert_eq!(warm.get_page(key(0), Lsn(lsn)), frozen.get_page(key(0), Lsn(lsn)));
        assert_eq!(warm.get_rel_size(rel(), Lsn(lsn)), frozen.get_rel_size(rel(), Lsn(lsn)));
    }
}

#[test]
fn later_writes_change_no_earlier_read() {
    let mut repo = Repository::new(2);
    repo.ingest(vec![base_image(3), edit(0, 0xAA, 20)]);
    let before = repo.get_page(key(0), Lsn(25)).unwrap();
    repo.ingest(vec![edit(0, 0xCC, 26), edit(0, 0xDD, 27)]);
    assert_eq!(repo.get_page(key(0), Lsn(25)).unwrap(), before);
    match repo.get_page(key(0), Lsn(27)).unwrap() {
        PageLookup::Page(p) => assert_eq!(p[0], 0xDD),
        other => panic!("{other:?}"),
    }
}

#[test]
fn a_base_from_elsewhere_stands_before_the_own_versions() {
    let mut repo = Repository::new(1_000);
    repo.ingest(vec![edit(0, 0xAA, 20)]);
    assert_eq!(repo.get_page(key(0), Lsn(20)).unwrap(), PageLookup::NotFound);
    match repo.get_page_with_base(key(0), Lsn(20), Some((Lsn(15), vec![9; PAGE_SIZE]))).unwrap() {
        PageLookup::Page(p) => {
            assert_eq!(p[0], 0xAA);
            assert_eq!(p[1], 9);
        }
        other => panic!("{other:?}"),
    }
}

#[test]
fn a_bad_edit_is_reported() {
    let mut repo = Repository::new(1_000);
    repo.ingest(vec![
        base_image(0),
        Modification {
            rel: rel(),
            block: 0,
            lsn: Lsn(20),
            version: PageVersion::Delta(vec![ByteEdit { offset: 8191, data: vec![1, 2] }]),
        },
    ]);
    let err = repo.get_page(key(0), Lsn(20)).unwrap_err();
    assert!(matches!(err, PageError::Redo(_) | PageError::EditOutOfBounds { .. }), "{err:?}");
}

#[test]
fn offloads_frozen_layers_and_is_idempotent() {
    let mut repo = Repository::new(1_000);
    let rel = RelTag { spc_node: 1, db_node: 2, rel_node: 3, fork: ForkNumber::Main };
    repo.ingest(vec![Modification {
        rel,
        block: 0,
        lsn: Lsn(10),
        version: PageVersion::Image(vec![0xEE; PAGE_SIZE]),
    }]);
    repo.freeze();

    // First pass uploads the one layer; a second pass uploads nothing.
    let mut store: Vec<(String, Vec<u8>)> = Vec::new();
    let mut pass = |repo: &mut Repository<RustApplyRedoManager>,
                    store: &mut Vec<(String, Vec<u8>)>| {
        let mut uploaded = 0;
        for job in offload_jobs(repo) {
            store.push((job.key, job.bytes.unwrap()));
            repo.mark_uploaded(job.id);
            uploaded += 1;
        }
        uploaded
    };
    assert_eq!(pass(&mut repo, &mut store), 1);
    assert_eq!(pass(&mut repo, &mut store), 0);
    assert!(repo.pending_offload().is_empty());

    // The object exists and deserializes back to a usable layer.
    assert_eq!(store.len(), 1);
    assert!(store[0].0.starts_with(LAYER_PREFIX));
    let layer = Layer::deserialize(&store[0].1).unwrap();
    assert_eq!(layer.len(), 1);
}

#[test]
fn layers_with_raw_records_are_no_files() {
    let mut repo = Repository::new(1_000);
    repo.ingest(vec![Modification {
        rel: rel(),
        block: 0,
        lsn: Lsn(10),
        version: PageVersion::WalRecord(WalRecord { will_init: true, rec: vec![1] }),
    }]);
    repo.freeze();
    let jobs = offload_jobs(&repo);
    assert_eq!(jobs.len(), 1);
    assert!(jobs[0].bytes.is_none());
}

#[test]
fn layer_files_have_names_of_their_own() {
    assert_eq!(layer_key(0), "layers/0000000000000000.layer");
    assert_eq!(layer_key(42), "layers/000000000000002a.layer");
    assert_eq!(layer_key(u64::MAX), "layers/ffffffffffffffff.layer");
}

#[test]
fn layer_keys_are_in_the_order_of_the_ids() {
    let ids = [0, 1, 9, 10, 15, 16, 255, 256, 0xffff, 1 << 40, u64::MAX - 1, u64::MAX];
    for a in ids {
        for b in ids {
            assert_eq!(a < b, layer_key(a) < layer_key(b), "{a} {b}");
        }
    }
}

#[test]
fn compaction_drops_what_a_later_base_supersedes() {
    let mut repo = Repository::new(1_000);
    repo.ingest(vec![base_image(1), edit(0, 2, 200)]);
    repo.freeze();
    let mut later = base_image(3);
    later.lsn = Lsn(300);
    repo.ingest(vec![later, edit(1, 4, 400)]);
    repo.freeze();
    repo.ingest(vec![edit(2, 5, 500)]);
    let read = |r: &Repository<RustApplyRedoManager>, l: u64| r.get_page(key(0), Lsn(l)).unwrap();
    let before: Vec<PageLookup> = [300, 399, 400, 500, 600].iter().map(|l| read(&repo, *l)).collect();
    let sizes: Vec<Option<u32>> =
        [0, 99, 100, 300, 600].iter().map(|l| repo.get_rel_size(rel(), Lsn(*l))).collect();
    let stats = repo.compact(Lsn(300));
    assert_eq!((stats.layers_before, stats.layers_after, stats.versions_removed), (2, 1, 2));
    let after: Vec<PageLookup> = [300, 399, 400, 500, 600].iter().map(|l| read(&repo, *l)).collect();
    assert_eq!(after, before);
    let now: Vec<Option<u32>> =
        [0, 99, 100, 300, 600].iter().map(|l| repo.get_rel_size(rel(), Lsn(*l))).collect();
    assert_eq!(now, sizes);
    assert_eq!(read(&repo, 299), PageLookup::NotFound);
}

// Real WAL: page headers, records with and without images.

/// A long page header at LSN 0 (magic + long-header flag), rest zeroed.
fn long_header() -> Vec<u8> {
    let mut h = vec![0u8; SIZE_OF_XLOG_LONG_PHD];
    h[0..2].copy_from_slice(&XLOG_PAGE_MAGIC_PG16.to_le_bytes());
    h[2..4].copy_from_slice(&0x0002u16.to_le_bytes());
    h
}

/// Wrap a record body in a 24-byte header with a valid length.
fn xlog_record(rmid: u8, body: &[u8]) -> Vec<u8> {
    let tot = 24 + body.len();
    let mut r = Vec::with_capacity(tot);
    r.extend_from_slice(&(tot as u32).to_le_bytes()); // xl_tot_len
    r.extend_from_slice(&0u32.to_le_bytes()); // xl_xid
    r.extend_from_slice(&0u64.to_le_bytes()); // xl_prev
    r.push(0); // xl_info
    r.push(rmid); // xl_rmid
    r.extend_from_slice(&[0, 0]); // padding
    r.extend_from_slice(&0u32.to_le_bytes()); // xl_crc
    r.extend_from_slice(body);
    r
}

/// A record body with a single full-page image (with a hole) for block 0 of
/// `rel()`. The stored 8 bytes surround an all-zero hole in the page.
fn fpi_body() -> Vec<u8> {
    let stored: [u8; 8] = [1, 2, 3, 4, 5, 6, 7, 8];
    let hole_offset = 4u16;
    let mut b = Vec::new();
    b.push(0u8); // block_id
    b.push(0x10 | (ForkNumber::Main as u8)); // has image | fork
    b.extend_from_slice(&0u16.to_le_bytes()); // data_len
    b.extend_from_slice(&(stored.len() as u16).to_le_bytes()); // bimg_len
    b.extend_from_slice(&hole_offset.to_le_bytes()); // hole_offset
    b.push(0x01 | 0x02); // has hole | apply (uncompressed)
    b.extend_from_slice(&rel().spc_node.to_le_bytes());
    b.extend_from_slice(&rel().db_node.to_le_bytes());
    b.extend_from_slice(&rel().rel_node.to_le_bytes());
    b.extend_from_slice(&0u32.to_le_bytes()); // blkno
    b.push(255u8); // main data, short
    b.push(0u8); // main_data_len = 0
    b.extend_from_slice(&stored); // image bytes
    b
}

/// A record body that references block 0 of `rel()` with no image.
fn delta_body() -> Vec<u8> {
    let mut b = Vec::new();
    b.push(0u8); // block_id
    b.push(ForkNumber::Main as u8); // fork, no flags
    b.extend_from_slice(&0u16.to_le_bytes()); // data_len
    b.extend_from_slice(&rel().spc_node.to_le_bytes());
    b.extend_from_slice(&rel().db_node.to_le_bytes());
    b.extend_from_slice(&rel().rel_node.to_le_bytes());
    b.extend_from_slice(&0u32.to_le_bytes()); // blkno
    b.push(255u8);
    b.push(0u8);
    b
}

/// Lay records into one long-header WAL page, padded between them.
fn wal_page(records: &[Vec<u8>]) -> Vec<u8> {
    let mut page = long_header();
    for (i, rec) in records.iter().enumerate() {
        page.extend_from_slice(rec);
        if i + 1 < records.len() {
            let pad = (8 - (page.len() % 8)) % 8;
            page.extend(std::iter::repeat(0u8).take(pad));
        }
    }
    page
}

#[test]
fn ingest_wal_materializes_a_full_page_image() {
    let mut repo = Repository::new(1_000);
    let wal = wal_page(&[xlog_record(10, &fpi_body())]);

    let n = repo.ingest_wal(Lsn(0), &wal).expect("decode WAL");
    assert_eq!(n, 1);

    match repo.get_page(key(0), Lsn(1_000)).unwrap() {
        PageLookup::Page(p) => {
            assert_eq!(p.len(), PAGE_SIZE);
            assert_eq!(&p[0..4], &[1, 2, 3, 4]); // before the hole
            assert_eq!(&p[PAGE_SIZE - 4..], &[5, 6, 7, 8]); // after the hole
            assert!(p[4..PAGE_SIZE - 4].iter().all(|&b| b == 0)); // the hole
        }
        other => panic!("{other:?}"),
    }
    // The page's relation size is now known from the WAL.
    assert_eq!(repo.get_rel_size(rel(), Lsn(1_000)), Some(1));
}

#[test]
fn ingest_wal_keeps_raw_record_for_non_image_change() {
    let mut repo = Repository::new(1_000);
    // A full-page image followed by a real (non-image) change to the same page.
    let wal = wal_page(&[xlog_record(10, &fpi_body()), xlog_record(10, &delta_body())]);

    let n = repo.ingest_wal(Lsn(0), &wal).expect("decode WAL");
    assert_eq!(n, 2);

    // The native backend can't apply a raw WAL record: reconstruction must
    // report that a PostgreSQL wal-redo backend is required, rather than
    // silently dropping the change or corrupting the page.
    let err = repo.get_page(key(0), Lsn(1_000)).unwrap_err();
    assert!(matches!(err, PageError::Redo(_)), "expected Redo error, got {err:?}");
}

#[test]
fn wal_may_come_in_pieces() {
    let wal = wal_page(&[xlog_record(10, &fpi_body()), xlog_record(10, &fpi_body())]);
    let mut whole = Repository::new(1_000);
    assert_eq!(whole.ingest_wal(Lsn(0), &wal).unwrap(), 2);

    let mut pieces = Repository::new(1_000);
    let mut decoder = WalStreamDecoder::new(Lsn(0));
    let mut n = 0;
    for chunk in wal.chunks(7) {
        decoder.feed_bytes(chunk);
        n += pieces.ingest_stream(&mut decoder).unwrap();
    }
    assert_eq!(n, 2);
    for lsn in [39, 40, 100, 1_000] {
        assert_eq!(whole.get_page(key(0), Lsn(lsn)), pieces.get_page(key(0), Lsn(lsn)));
    }
}

#[test]
fn a_bad_record_is_not_ingested() {
    let mut repo = Repository::new(1_000);
    let rec = xlog_record(10, &[100]);
    assert_eq!(repo.ingest_record(Lsn(1), &rec), Err(WalDecodeError::BadBlockId(100)));
    assert_eq!(repo.get_rel_size(rel(), Lsn(1_000)), None);
    assert_eq!(repo.ingest_record(Lsn(1), &xlog_record(10, &fpi_body())), Ok(()));
    assert_eq!(repo.get_rel_size(rel(), Lsn(1_000)), Some(1));
}

#[test]
fn the_backend_is_the_one_given() {
    let mut repo = Repository::with_redo(1_000, Arc::new(RustApplyRedoManager));
    repo.ingest(vec![base_image(5)]);
    match repo.get_page(key(0), Lsn(10)).unwrap() {
        PageLookup::Page(p) => assert!(p.iter().all(|&b| b == 5)),
        other => panic!("{other:?}"),
    }
}

#[test]
fn compaction_leaves_exactly_one_layer() {
    let mut repo = Repository::new(1_000);
    assert_eq!(repo.compact(Lsn(5)).layers_after, 0);
    for lsn in [10, 20, 30] {
        repo.ingest(vec![Modification {
            rel: rel(),
            block: 0,
            lsn: Lsn(lsn),
            version: PageVersion::Image(vec![lsn as u8; PAGE_SIZE]),
        }]);
        repo.freeze();
    }
    assert_eq!(repo.layer_count(), 3);
    let stats = repo.compact(Lsn(u64::MAX));
    assert_eq!((stats.layers_before, stats.layers_after, stats.versions_removed), (3, 1, 2));
    let again = repo.compact(Lsn(u64::MAX));
    assert_eq!((again.layers_before, again.layers_after, again.versions_removed), (1, 1, 0));
    assert_eq!(repo.get_rel_size(rel(), Lsn(15)), Some(1));
}

#[test]
fn batches_thresholds_and_freezes_change_no_read() {
    let mods = vec![
        base_image(1),
        edit(0, 0xAA, 20),
        Modification {
            rel: rel(),
            block: 3,
            lsn: Lsn(22),
            version: PageVersion::Image(vec![7; PAGE_SIZE]),
        },
        edit(1, 0xBB, 30),
    ];
    let mut one = Repository::new(1_000);
    one.ingest(mods.clone());
    let mut other = Repository::new(2);
    other.ingest(mods[..1].to_vec());
    other.freeze();
    other.ingest(mods[1..].to_vec());
    other.freeze();
    for lsn in [0, 9, 10, 20, 22, 29, 30, u64::MAX] {
        for block in [0, 3, 4] {
            assert_eq!(
                one.get_page(key(block), Lsn(lsn)),
                other.get_page(key(block), Lsn(lsn))
            );
        }
        assert_eq!(one.get_rel_size(rel(), Lsn(lsn)), other.get_rel_size(rel(), Lsn(lsn)));
    }
    assert_eq!(one.get_rel_size(rel(), Lsn(21)), Some(1));
    assert_eq!(one.get_rel_size(rel(), Lsn(30)), Some(4));
}

#[test]
fn a_base_from_outside_reads_like_an_ingested_image() {
    let mut repo = Repository::new(1_000);
    repo.ingest(vec![edit(0, 0xAA, 20)]);
    let base = vec![9u8; PAGE_SIZE];
    let with_base = repo.get_page_with_base(key(0), Lsn(25), Some((Lsn(15), base.clone())));

    let mut holding = Repository::new(1_000);
    holding.ingest(vec![edit(0, 0xAA, 20)]);
    holding.ingest(vec![Modification {
        rel: rel(),
        block: 0,
        lsn: Lsn(15),
        version: PageVersion::Image(base),
    }]);
    assert_eq!(with_base, holding.get_page(key(0), Lsn(25)));
    match with_base.unwrap() {
        PageLookup::Page(p) => assert_eq!((p[0], p[1]), (0xAA, 9)),
        other => panic!("{other:?}"),
    }
    // Nothing of the base stays.
    assert_eq!(repo.get_page(key(0), Lsn(25)), Ok(PageLookup::NotFound));
}

#[test]
fn pending_layers_come_in_the_order_of_their_ids() {
    let mut repo = Repository::new(1);
    repo.ingest(vec![base_image(1), edit(0, 1, 20), edit(0, 2, 30), edit(0, 3, 40)]);
    let ids: Vec<u64> = repo.pending_offload().iter().map(|l| l.id()).collect();
    assert_eq!(ids, vec![0, 1, 2, 3]);
    repo.mark_uploaded(1);
    let ids: Vec<u64> = repo.pending_offload().iter().map(|l| l.id()).collect();
    assert_eq!(ids, vec![0, 2, 3]);
    repo.compact(Lsn(5));
    let ids: Vec<u64> = repo.pending_offload().iter().map(|l| l.id()).collect();
    assert_eq!(ids, vec![4]);
}

#[test]
fn ingesting_wal_is_ingesting_its_records() {
    // Two whole records, and one that is cut off.
    let mut wal = wal_page(&[
        xlog_record(10, &fpi_body()),
        xlog_record(10, &delta_body()),
        xlog_record(10, &fpi_body()),
    ]);
    wal.truncate(wal.len() - 3);
    let mut whole = Repository::new(1_000);
    assert_eq!(whole.ingest_wal(Lsn(0), &wal), Ok(2));

    let mut one_by_one = Repository::new(1_000);
    let mut decoder = WalStreamDecoder::new(Lsn(0));
    decoder.feed_bytes(&wal);
    while let Some((lsn, record)) = decoder.poll_decode().unwrap() {
        assert_eq!(lsn.raw() % 8, 0);
        assert!(record.len() >= 24);
        let said = u32::from_le_bytes([record[0], record[1], record[2], record[3]]);
        assert_eq!(said as usize, record.len());
        one_by_one.ingest_record(lsn, &record).unwrap();
    }
    for lsn in [0, 39, 40, 41, 100, 200, 1_000] {
        assert_eq!(whole.get_page(key(0), Lsn(lsn)), one_by_one.get_page(key(0), Lsn(lsn)));
        assert_eq!(whole.get_rel_size(rel(), Lsn(lsn)), one_by_one.get_rel_size(rel(), Lsn(lsn)));
    }
}
